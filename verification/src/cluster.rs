//! Seed-and-grow clustering over a neighbour relation.
//!
//! Points are numbered `0..n`; `neighbors[i]` lists the points close enough
//! to point `i`. A point with at least `min_points` neighbours that no
//! cluster has reached yet seeds a cluster made of it and its neighbours;
//! the cluster then grows through every reached point that has at least
//! `min_points` neighbours itself, taking in the neighbours that no cluster
//! holds yet.

use vstd::prelude::*;

verus! {

/// Lists of points, as sequences.
pub open spec fn neighbor_views(neighbors: Seq<Vec<usize>>) -> Seq<Seq<usize>> {
    neighbors.map_values(|v: Vec<usize>| v@)
}

/// Every listed neighbour is one of the `n` points.
pub open spec fn neighbors_in_range(nb: Seq<Seq<usize>>) -> bool {
    forall|i: int, j: int| 0 <= i < nb.len() && 0 <= j < nb[i].len() ==> #[trigger] nb[i][j] < nb.len()
}

/// The number of points not visited yet.
pub open spec fn unvisited(visited: Seq<bool>) -> nat
    decreases visited.len(),
{
    if visited.len() == 0 {
        0
    } else {
        unvisited(visited.drop_last()) + if visited.last() {
            0nat
        } else {
            1nat
        }
    }
}

/// Visiting a point not visited yet leaves one fewer to visit.
pub proof fn lemma_visit(visited: Seq<bool>, i: int)
    requires
        0 <= i < visited.len(),
        !visited[i],
    ensures
        unvisited(visited.update(i, true)) + 1 == unvisited(visited),
    decreases visited.len(),
{
    let u = visited.update(i, true);
    if i == visited.len() - 1 {
        assert(u.drop_last() =~= visited.drop_last());
    } else {
        lemma_visit(visited.drop_last(), i);
        assert(u.drop_last() =~= visited.drop_last().update(i, true));
    }
}

/// Marks each of `ns` as clustered.
pub open spec fn mark_all(ns: Seq<usize>, clustered: Seq<bool>) -> Seq<bool>
    decreases ns.len(),
{
    if ns.len() == 0 {
        clustered
    } else {
        let c = mark_all(ns.drop_last(), clustered);
        if ns.last() < c.len() {
            c.update(ns.last() as int, true)
        } else {
            c
        }
    }
}

/// Takes in, one after another, each of `ns` that is not clustered yet:
/// it is marked clustered and joins both the cluster and the queue.
pub open spec fn take_new(ns: Seq<usize>, clustered: Seq<bool>, cluster: Seq<usize>, queue: Seq<usize>) -> (
    Seq<bool>,
    Seq<usize>,
    Seq<usize>,
)
    decreases ns.len(),
{
    if ns.len() == 0 {
        (clustered, cluster, queue)
    } else {
        let (c, cl, q) = take_new(ns.drop_last(), clustered, cluster, queue);
        let n = ns.last();
        if n < c.len() && !c[n as int] {
            (c.update(n as int, true), cl.push(n), q.push(n))
        } else {
            (c, cl, q)
        }
    }
}

/// Grows a cluster: the last point of the queue is taken off; unless it
/// was visited, it is visited now and, where it has at least `min_points`
/// neighbours, the new ones among them are taken in. The result is the
/// visited and clustered marks and the cluster once the queue is empty.
pub open spec fn grow(
    nb: Seq<Seq<usize>>,
    min_points: usize,
    visited: Seq<bool>,
    clustered: Seq<bool>,
    cluster: Seq<usize>,
    queue: Seq<usize>,
) -> (Seq<bool>, Seq<bool>, Seq<usize>)
    decreases unvisited(visited), queue.len(),
{
    if queue.len() == 0 {
        (visited, clustered, cluster)
    } else {
        let cur = queue.last();
        let q = queue.drop_last();
        if cur >= visited.len() || visited[cur as int] {
            grow(nb, min_points, visited, clustered, cluster, q)
        } else {
            proof {
                lemma_visit(visited, cur as int);
            }
            let v = visited.update(cur as int, true);
            if nb[cur as int].len() >= min_points {
                let (c, cl, q2) = take_new(nb[cur as int], clustered, cluster, q);
                grow(nb, min_points, v, c, cl, q2)
            } else {
                grow(nb, min_points, v, clustered, cluster, q)
            }
        }
    }
}

/// The clusters that the points from `i` on add to `out`, with the given
/// visited and clustered marks.
pub open spec fn clusters_from(
    nb: Seq<Seq<usize>>,
    min_points: usize,
    i: nat,
    visited: Seq<bool>,
    clustered: Seq<bool>,
    out: Seq<Seq<usize>>,
) -> Seq<Seq<usize>>
    decreases nb.len() - i,
{
    if i >= nb.len() {
        out
    } else if visited[i as int] || clustered[i as int] {
        clusters_from(nb, min_points, i + 1, visited, clustered, out)
    } else {
        let v = visited.update(i as int, true);
        let ns = nb[i as int];
        if ns.len() >= min_points {
            let c = mark_all(ns, clustered.update(i as int, true));
            let (v2, c2, cl) = grow(nb, min_points, v, c, seq![i as usize] + ns, ns);
            clusters_from(nb, min_points, i + 1, v2, c2, out.push(cl))
        } else {
            clusters_from(nb, min_points, i + 1, v, clustered, out)
        }
    }
}

/// The clusters of the points, in the order their seeds are numbered.
pub open spec fn seed_clusters(nb: Seq<Seq<usize>>, min_points: usize) -> Seq<Seq<usize>> {
    let none = Seq::new(nb.len(), |k: int| false);
    clusters_from(nb, min_points, 0, none, none, Seq::empty())
}

/// Point `p` lies in one of the clusters.
pub open spec fn in_clusters(cs: Seq<Seq<usize>>, p: int) -> bool {
    exists|a: int, b: int| 0 <= a < cs.len() && 0 <= b < cs[a].len() && #[trigger] cs[a][b] == p
}

/// Point `p` is listed in `ns`.
pub open spec fn listed(ns: Seq<usize>, p: int) -> bool {
    exists|j: int| 0 <= j < ns.len() && #[trigger] ns[j] as int == p
}

/// Point `p` has at least `min_points` neighbours.
pub open spec fn dense(nb: Seq<Seq<usize>>, min_points: usize, p: int) -> bool {
    nb[p].len() >= min_points
}

/// Each cluster is a non-empty list of points, seeded by a point with at
/// least `min_points` neighbours.
pub open spec fn well_seeded(cs: Seq<Seq<usize>>, nb: Seq<Seq<usize>>, min_points: usize) -> bool {
    forall|a: int|
        0 <= a < cs.len() ==> (#[trigger] cs[a]).len() > 0 && dense(nb, min_points, cs[a][0] as int) && forall|b: int|
            0 <= b < cs[a].len() ==> #[trigger] cs[a][b] < nb.len()
}

/// Marking sets exactly the marks of the listed points.
proof fn lemma_mark_all(ns: Seq<usize>, clustered: Seq<bool>)
    requires
        forall|j: int| 0 <= j < ns.len() ==> #[trigger] ns[j] < clustered.len(),
    ensures
        mark_all(ns, clustered).len() == clustered.len(),
        forall|p: int| 0 <= p < clustered.len() ==> #[trigger] mark_all(ns, clustered)[p] == (clustered[p] || listed(ns, p)),
    decreases ns.len(),
{
    if ns.len() > 0 {
        let t = ns.drop_last();
        assert forall|j: int| 0 <= j < t.len() implies #[trigger] t[j] < clustered.len() by {
            assert(t[j] == ns[j]);
        }
        lemma_mark_all(t, clustered);
        assert forall|p: int| 0 <= p < clustered.len() implies #[trigger] mark_all(ns, clustered)[p] == (clustered[p] || listed(ns, p)) by {
            if listed(ns, p) && p != ns.last() as int {
                let j = choose|j: int| 0 <= j < ns.len() && ns[j] as int == p;
                assert(t[j] == ns[j]);
            }
            if listed(t, p) {
                let j = choose|j: int| 0 <= j < t.len() && t[j] as int == p;
                assert(ns[j] == t[j]);
            }
            if p == ns.last() as int {
                assert(ns[ns.len() - 1] as int == p);
            }
        }
    }
}

/// What taking in keeps: every clustered point lies in a finished cluster or
/// the growing one, every queued point is clustered, the growing cluster
/// only grows, and marks are only set.
proof fn lemma_take_new(
    nb: Seq<Seq<usize>>,
    ns: Seq<usize>,
    clustered: Seq<bool>,
    cluster: Seq<usize>,
    queue: Seq<usize>,
    out: Seq<Seq<usize>>,
)
    requires
        clustered.len() == nb.len(),
        forall|j: int| 0 <= j < ns.len() ==> #[trigger] ns[j] < nb.len(),
        forall|p: int| 0 <= p < nb.len() && #[trigger] clustered[p] ==> in_clusters(out, p) || listed(cluster, p),
        forall|j: int| 0 <= j < queue.len() ==> #[trigger] queue[j] < nb.len() && clustered[queue[j] as int],
        forall|j: int| 0 <= j < cluster.len() ==> #[trigger] cluster[j] < nb.len(),
    ensures
        ({
            let (c, cl, q) = take_new(ns, clustered, cluster, queue);
            &&& c.len() == nb.len()
            &&& forall|p: int| 0 <= p < nb.len() && #[trigger] c[p] ==> in_clusters(out, p) || listed(cl, p)
            &&& forall|j: int| 0 <= j < q.len() ==> #[trigger] q[j] < nb.len() && c[q[j] as int]
            &&& forall|j: int| 0 <= j < cl.len() ==> #[trigger] cl[j] < nb.len()
            &&& cl.len() >= cluster.len()
            &&& forall|j: int| 0 <= j < cluster.len() ==> #[trigger] cl[j] == cluster[j]
            &&& forall|p: int| 0 <= p < nb.len() && #[trigger] clustered[p] ==> c[p]
        }),
    decreases ns.len(),
{
    if ns.len() > 0 {
        let t = ns.drop_last();
        assert forall|j: int| 0 <= j < t.len() implies #[trigger] t[j] < nb.len() by {
            assert(t[j] == ns[j]);
        }
        lemma_take_new(nb, t, clustered, cluster, queue, out);
        let (c, cl, q) = take_new(t, clustered, cluster, queue);
        let n = ns.last();
        assert(n == ns[ns.len() - 1]);
        if n < c.len() && !c[n as int] {
            let c2 = c.update(n as int, true);
            let cl2 = cl.push(n);
            let q2 = q.push(n);
            assert forall|p: int| 0 <= p < nb.len() && #[trigger] c2[p] implies in_clusters(out, p) || listed(cl2, p) by {
                if p == n {
                    assert(cl2[cl.len() as int] == n);
                } else {
                    assert(c2[p] == c[p]);
                    if listed(cl, p) {
                        let j = choose|j: int| 0 <= j < cl.len() && cl[j] as int == p;
                        assert(cl2[j] == cl[j]);
                    }
                }
            }
            assert forall|j: int| 0 <= j < q2.len() implies #[trigger] q2[j] < nb.len() && c2[q2[j] as int] by {
                if j < q.len() {
                    assert(q2[j] == q[j]);
                }
            }
            assert forall|j: int| 0 <= j < cl2.len() implies #[trigger] cl2[j] < nb.len() by {
                if j < cl.len() {
                    assert(cl2[j] == cl[j]);
                }
            }
            assert forall|j: int| 0 <= j < cluster.len() implies #[trigger] cl2[j] == cluster[j] by {
                assert(cl2[j] == cl[j]);
            }
        }
    }
}

/// What growing keeps, as taking in does, and that a visited point with at
/// least `min_points` neighbours lies in a finished cluster or the growing
/// one; marks are only set.
proof fn lemma_grow(
    nb: Seq<Seq<usize>>,
    min_points: usize,
    visited: Seq<bool>,
    clustered: Seq<bool>,
    cluster: Seq<usize>,
    queue: Seq<usize>,
    out: Seq<Seq<usize>>,
)
    requires
        neighbors_in_range(nb),
        visited.len() == nb.len(),
        clustered.len() == nb.len(),
        forall|p: int| 0 <= p < nb.len() && #[trigger] clustered[p] ==> in_clusters(out, p) || listed(cluster, p),
        forall|p: int|
            0 <= p < nb.len() && #[trigger] visited[p] && dense(nb, min_points, p) ==> in_clusters(out, p) || listed(cluster, p),
        forall|j: int| 0 <= j < queue.len() ==> #[trigger] queue[j] < nb.len() && clustered[queue[j] as int],
        forall|j: int| 0 <= j < cluster.len() ==> #[trigger] cluster[j] < nb.len(),
    ensures
        ({
            let (v, c, cl) = grow(nb, min_points, visited, clustered, cluster, queue);
            &&& v.len() == nb.len()
            &&& c.len() == nb.len()
            &&& forall|p: int| 0 <= p < nb.len() && #[trigger] c[p] ==> in_clusters(out, p) || listed(cl, p)
            &&& forall|p: int|
                0 <= p < nb.len() && #[trigger] v[p] && dense(nb, min_points, p) ==> in_clusters(out, p) || listed(cl, p)
            &&& forall|j: int| 0 <= j < cl.len() ==> #[trigger] cl[j] < nb.len()
            &&& cl.len() >= cluster.len()
            &&& forall|j: int| 0 <= j < cluster.len() ==> #[trigger] cl[j] == cluster[j]
            &&& forall|p: int| 0 <= p < nb.len() && #[trigger] visited[p] ==> v[p]
            &&& forall|p: int| 0 <= p < nb.len() && #[trigger] clustered[p] ==> c[p]
        }),
    decreases unvisited(visited), queue.len(),
{
    if queue.len() > 0 {
        let cur = queue.last();
        let q = queue.drop_last();
        assert(queue[queue.len() - 1] == cur);
        assert forall|j: int| 0 <= j < q.len() implies #[trigger] q[j] < nb.len() && clustered[q[j] as int] by {
            assert(q[j] == queue[j]);
        }
        if cur >= visited.len() || visited[cur as int] {
            lemma_grow(nb, min_points, visited, clustered, cluster, q, out);
        } else {
            lemma_visit(visited, cur as int);
            let v = visited.update(cur as int, true);
            assert forall|p: int| 0 <= p < nb.len() && #[trigger] v[p] && dense(nb, min_points, p) implies in_clusters(out, p)
                || listed(cluster, p) by {
                if p != cur as int {
                    assert(v[p] == visited[p]);
                } else {
                    assert(clustered[queue[queue.len() - 1] as int]);
                }
            }
            assert forall|j: int| 0 <= j < nb[cur as int].len() implies #[trigger] nb[cur as int][j] < nb.len() by {}
            if nb[cur as int].len() >= min_points {
                lemma_take_new(nb, nb[cur as int], clustered, cluster, q, out);
                let (c, cl, q2) = take_new(nb[cur as int], clustered, cluster, q);
                assert forall|p: int| 0 <= p < nb.len() && #[trigger] v[p] && dense(nb, min_points, p) implies in_clusters(out, p)
                    || listed(cl, p) by {
                    if listed(cluster, p) {
                        let j = choose|j: int| 0 <= j < cluster.len() && cluster[j] as int == p;
                        assert(cl[j] == cluster[j]);
                    }
                }
                lemma_grow(nb, min_points, v, c, cl, q2, out);
                let (v3, c3, cl3) = grow(nb, min_points, v, c, cl, q2);
                assert forall|j: int| 0 <= j < cluster.len() implies #[trigger] cl3[j] == cluster[j] by {
                    assert(cl3[j] == cl[j]);
                }
                assert forall|p: int| 0 <= p < nb.len() && #[trigger] visited[p] implies v3[p] by {
                    assert(v[p]);
                }
                assert forall|p: int| 0 <= p < nb.len() && #[trigger] clustered[p] implies c3[p] by {
                    assert(c[p]);
                }
            } else {
                lemma_grow(nb, min_points, v, clustered, cluster, q, out);
                let (v3, c3, cl3) = grow(nb, min_points, v, clustered, cluster, q);
                assert forall|p: int| 0 <= p < nb.len() && #[trigger] visited[p] implies v3[p] by {
                    assert(v[p]);
                }
            }
        }
    }
}

/// Marking and taking in keep the number of marks.
proof fn lemma_lengths(ns: Seq<usize>, clustered: Seq<bool>, cluster: Seq<usize>, queue: Seq<usize>)
    ensures
        mark_all(ns, clustered).len() == clustered.len(),
        take_new(ns, clustered, cluster, queue).0.len() == clustered.len(),
    decreases ns.len(),
{
    if ns.len() > 0 {
        lemma_lengths(ns.drop_last(), clustered, cluster, queue);
    }
}

/// Growing keeps the number of marks.
proof fn lemma_grow_lengths(
    nb: Seq<Seq<usize>>,
    min_points: usize,
    visited: Seq<bool>,
    clustered: Seq<bool>,
    cluster: Seq<usize>,
    queue: Seq<usize>,
)
    requires
        visited.len() == clustered.len(),
    ensures
        grow(nb, min_points, visited, clustered, cluster, queue).0.len() == visited.len(),
        grow(nb, min_points, visited, clustered, cluster, queue).1.len() == visited.len(),
    decreases unvisited(visited), queue.len(),
{
    if queue.len() > 0 {
        let cur = queue.last();
        let q = queue.drop_last();
        if cur >= visited.len() || visited[cur as int] {
            lemma_grow_lengths(nb, min_points, visited, clustered, cluster, q);
        } else {
            lemma_visit(visited, cur as int);
            let v = visited.update(cur as int, true);
            if nb[cur as int].len() >= min_points {
                lemma_lengths(nb[cur as int], clustered, cluster, q);
                let (c, cl, q2) = take_new(nb[cur as int], clustered, cluster, q);
                lemma_grow_lengths(nb, min_points, v, c, cl, q2);
            } else {
                lemma_grow_lengths(nb, min_points, v, clustered, cluster, q);
            }
        }
    }
}

/// A point in a finished cluster stays in one when another is added.
proof fn lemma_in_clusters_push(out: Seq<Seq<usize>>, cl: Seq<usize>, p: int)
    ensures
        in_clusters(out, p) ==> in_clusters(out.push(cl), p),
        listed(cl, p) ==> in_clusters(out.push(cl), p),
{
    let o2 = out.push(cl);
    if in_clusters(out, p) {
        let (a, b) = choose|a: int, b: int| 0 <= a < out.len() && 0 <= b < out[a].len() && #[trigger] out[a][b] == p;
        assert(o2[a][b] == out[a][b]);
    }
    if listed(cl, p) {
        let j = choose|j: int| 0 <= j < cl.len() && #[trigger] cl[j] as int == p;
        assert(o2[out.len() as int][j] == cl[j]);
    }
}

/// Every listed point is marked.
pub open spec fn all_marked(ns: Seq<usize>, marks: Seq<bool>) -> bool {
    forall|j: int| 0 <= j < ns.len() ==> marks[#[trigger] ns[j] as int]
}

/// Every visited point with at least `min_points` neighbours has all its
/// neighbours marked clustered.
pub open spec fn closed_marks(nb: Seq<Seq<usize>>, min_points: usize, visited: Seq<bool>, clustered: Seq<bool>) -> bool {
    forall|p: int|
        0 <= p < nb.len() && #[trigger] visited[p] && dense(nb, min_points, p) ==> all_marked(nb[p], clustered)
}

/// Every neighbour of every point of a cluster that has at least
/// `min_points` neighbours lies in some cluster: a cluster is closed under
/// taking in the neighbours of its dense points.
pub open spec fn closed_clusters(cs: Seq<Seq<usize>>, nb: Seq<Seq<usize>>, min_points: usize) -> bool {
    forall|a: int, b: int, j: int|
        0 <= a < cs.len() && 0 <= b < cs[a].len() && dense(nb, min_points, cs[a][b] as int) && 0 <= j < nb[cs[a][b] as int].len()
            ==> in_clusters(cs, #[trigger] nb[cs[a][b] as int][j] as int)
}

/// Taking in marks every listed point, queues and adds to the cluster only
/// points it marks, and marks only points it queues.
proof fn lemma_take_new_marks(ns: Seq<usize>, clustered: Seq<bool>, cluster: Seq<usize>, queue: Seq<usize>)
    requires
        forall|j: int| 0 <= j < ns.len() ==> #[trigger] ns[j] < clustered.len(),
    ensures
        ({
            let (c, cl, q) = take_new(ns, clustered, cluster, queue);
            &&& c.len() == clustered.len()
            &&& all_marked(ns, c)
            &&& forall|p: int| 0 <= p < clustered.len() && #[trigger] clustered[p] ==> c[p]
            &&& forall|p: int| 0 <= p < clustered.len() && #[trigger] c[p] && !clustered[p] ==> listed(q, p)
            &&& q.len() >= queue.len()
            &&& forall|j: int| 0 <= j < queue.len() ==> #[trigger] q[j] == queue[j]
            &&& forall|j: int| queue.len() <= j < q.len() ==> #[trigger] q[j] < clustered.len() && c[q[j] as int]
            &&& cl.len() >= cluster.len()
            &&& forall|j: int| 0 <= j < cluster.len() ==> #[trigger] cl[j] == cluster[j]
            &&& forall|j: int| cluster.len() <= j < cl.len() ==> #[trigger] cl[j] < clustered.len() && c[cl[j] as int]
        }),
    decreases ns.len(),
{
    if ns.len() > 0 {
        let t = ns.drop_last();
        assert forall|j: int| 0 <= j < t.len() implies #[trigger] t[j] < clustered.len() by {
            assert(t[j] == ns[j]);
        }
        lemma_take_new_marks(t, clustered, cluster, queue);
        let (c, cl, q) = take_new(t, clustered, cluster, queue);
        let n = ns.last();
        assert(n == ns[ns.len() - 1]);
        if n < c.len() && !c[n as int] {
            let c2 = c.update(n as int, true);
            let cl2 = cl.push(n);
            let q2 = q.push(n);
            assert forall|j: int| 0 <= j < ns.len() implies c2[#[trigger] ns[j] as int] by {
                if j < t.len() {
                    assert(t[j] == ns[j]);
                }
            }
            assert forall|p: int| 0 <= p < clustered.len() && #[trigger] c2[p] && !clustered[p] implies listed(q2, p) by {
                if p == n as int {
                    assert(q2[q.len() as int] == n);
                } else {
                    let k = choose|k: int| 0 <= k < q.len() && #[trigger] q[k] as int == p;
                    assert(q2[k] == q[k]);
                }
            }
            assert forall|j: int| 0 <= j < queue.len() implies #[trigger] q2[j] == queue[j] by {
                assert(q2[j] == q[j]);
            }
            assert forall|j: int| queue.len() <= j < q2.len() implies #[trigger] q2[j] < clustered.len() && c2[q2[j] as int] by {
                if j < q.len() {
                    assert(q2[j] == q[j]);
                }
            }
            assert forall|j: int| 0 <= j < cluster.len() implies #[trigger] cl2[j] == cluster[j] by {
                assert(cl2[j] == cl[j]);
            }
            assert forall|j: int| cluster.len() <= j < cl2.len() implies #[trigger] cl2[j] < clustered.len() && c2[cl2[j] as int] by {
                if j < cl.len() {
                    assert(cl2[j] == cl[j]);
                }
            }
        } else {
            assert forall|j: int| 0 <= j < ns.len() implies c[#[trigger] ns[j] as int] by {
                if j < t.len() {
                    assert(t[j] == ns[j]);
                }
            }
        }
    }
}

/// Growing leaves every clustered point visited, every visited point with at
/// least `min_points` neighbours with all its neighbours clustered, and
/// every point of the cluster clustered.
proof fn lemma_grow_closes(
    nb: Seq<Seq<usize>>,
    min_points: usize,
    visited: Seq<bool>,
    clustered: Seq<bool>,
    cluster: Seq<usize>,
    queue: Seq<usize>,
)
    requires
        neighbors_in_range(nb),
        visited.len() == nb.len(),
        clustered.len() == nb.len(),
        forall|p: int| 0 <= p < nb.len() && #[trigger] clustered[p] ==> visited[p] || listed(queue, p),
        closed_marks(nb, min_points, visited, clustered),
        forall|j: int| 0 <= j < cluster.len() ==> #[trigger] cluster[j] < nb.len() && clustered[cluster[j] as int],
        forall|j: int| 0 <= j < queue.len() ==> #[trigger] queue[j] < nb.len(),
    ensures
        ({
            let (v, c, cl) = grow(nb, min_points, visited, clustered, cluster, queue);
            &&& forall|p: int| 0 <= p < nb.len() && #[trigger] c[p] ==> v[p]
            &&& closed_marks(nb, min_points, v, c)
            &&& forall|j: int| 0 <= j < cl.len() ==> #[trigger] cl[j] < nb.len() && c[cl[j] as int]
        }),
    decreases unvisited(visited), queue.len(),
{
    let n = nb.len();
    if queue.len() > 0 {
        let cur = queue.last();
        let q = queue.drop_last();
        assert(queue[queue.len() - 1] == cur);
        assert forall|j: int| 0 <= j < q.len() implies #[trigger] q[j] < n by {
            assert(q[j] == queue[j]);
        }
        assert forall|p: int| 0 <= p < n && listed(queue, p) && p != cur as int implies listed(q, p) by {
            let k = choose|k: int| 0 <= k < queue.len() && #[trigger] queue[k] as int == p;
            assert(q[k] == queue[k]);
        }
        if cur >= visited.len() || visited[cur as int] {
            lemma_grow_closes(nb, min_points, visited, clustered, cluster, q);
        } else {
            lemma_visit(visited, cur as int);
            let v = visited.update(cur as int, true);
            if nb[cur as int].len() >= min_points {
                assert forall|j: int| 0 <= j < nb[cur as int].len() implies #[trigger] nb[cur as int][j] < clustered.len() by {}
                lemma_take_new_marks(nb[cur as int], clustered, cluster, q);
                let (c, cl, q2) = take_new(nb[cur as int], clustered, cluster, q);
                assert forall|p: int| 0 <= p < n && #[trigger] c[p] implies v[p] || listed(q2, p) by {
                    if clustered[p] {
                        if p == cur as int {
                        } else if visited[p] {
                            assert(v[p] == visited[p]);
                        } else {
                            let k = choose|k: int| 0 <= k < q.len() && #[trigger] q[k] as int == p;
                            assert(q2[k] == q[k]);
                        }
                    }
                }
                assert(closed_marks(nb, min_points, v, c)) by {
                    assert forall|p: int| 0 <= p < n && #[trigger] v[p] && dense(nb, min_points, p) implies all_marked(nb[p], c) by {
                        if p != cur as int {
                            assert(v[p] == visited[p]);
                            assert(all_marked(nb[p], clustered));
                            assert forall|j: int| 0 <= j < nb[p].len() implies c[#[trigger] nb[p][j] as int] by {
                                assert(clustered[nb[p][j] as int]);
                            }
                        }
                    }
                }
                assert forall|j: int| 0 <= j < cl.len() implies #[trigger] cl[j] < n && c[cl[j] as int] by {
                    if j < cluster.len() {
                        assert(cl[j] == cluster[j]);
                        assert(clustered[cluster[j] as int]);
                    }
                }
                assert forall|j: int| 0 <= j < q2.len() implies #[trigger] q2[j] < n by {
                    if j < q.len() {
                        assert(q2[j] == q[j]);
                    }
                }
                lemma_grow_closes(nb, min_points, v, c, cl, q2);
            } else {
                assert forall|p: int| 0 <= p < n && #[trigger] clustered[p] implies v[p] || listed(q, p) by {
                    if p != cur as int && !visited[p] {
                    }
                }
                assert(closed_marks(nb, min_points, v, clustered)) by {
                    assert forall|p: int| 0 <= p < n && #[trigger] v[p] && dense(nb, min_points, p) implies all_marked(nb[p], clustered) by {
                        if p != cur as int {
                            assert(v[p] == visited[p]);
                        }
                    }
                }
                lemma_grow_closes(nb, min_points, v, clustered, cluster, q);
            }
        }
    }
}

/// From point `i` on, the clusters found stay well seeded, and in the end
/// every point with at least `min_points` neighbours lies in a cluster.
proof fn lemma_clusters_from(
    nb: Seq<Seq<usize>>,
    min_points: usize,
    i: nat,
    visited: Seq<bool>,
    clustered: Seq<bool>,
    out: Seq<Seq<usize>>,
)
    requires
        neighbors_in_range(nb),
        nb.len() <= usize::MAX,
        visited.len() == nb.len(),
        clustered.len() == nb.len(),
        i <= nb.len(),
        well_seeded(out, nb, min_points),
        forall|p: int| 0 <= p < nb.len() && #[trigger] clustered[p] ==> in_clusters(out, p),
        forall|p: int| 0 <= p < nb.len() && #[trigger] visited[p] && dense(nb, min_points, p) ==> in_clusters(out, p),
        forall|p: int| 0 <= p < i ==> #[trigger] visited[p] || clustered[p],
        forall|p: int| 0 <= p < nb.len() && #[trigger] clustered[p] ==> visited[p],
        closed_marks(nb, min_points, visited, clustered),
        forall|a: int, b: int| 0 <= a < out.len() && 0 <= b < out[a].len() ==> clustered[#[trigger] out[a][b] as int],
    ensures
        well_seeded(clusters_from(nb, min_points, i, visited, clustered, out), nb, min_points),
        forall|p: int|
            0 <= p < nb.len() && dense(nb, min_points, p) ==> #[trigger] in_clusters(
                clusters_from(nb, min_points, i, visited, clustered, out),
                p,
            ),
        closed_clusters(clusters_from(nb, min_points, i, visited, clustered, out), nb, min_points),
    decreases nb.len() - i,
{
    let n = nb.len();
    if i >= n {
        assert forall|p: int| 0 <= p < n && dense(nb, min_points, p) implies #[trigger] in_clusters(out, p) by {
            assert(visited[p] || clustered[p]);
        }
        assert forall|a: int, b: int, j: int|
            0 <= a < out.len() && 0 <= b < out[a].len() && dense(nb, min_points, out[a][b] as int) && 0 <= j < nb[out[a][b] as int].len()
            implies in_clusters(out, #[trigger] nb[out[a][b] as int][j] as int) by {
            let p = out[a][b] as int;
            assert(out[a][b] < nb.len());
            assert(clustered[p]);
            assert(visited[p]);
            assert(all_marked(nb[p], clustered));
            assert(clustered[nb[p][j] as int]);
        }
    } else if visited[i as int] || clustered[i as int] {
        lemma_clusters_from(nb, min_points, i + 1, visited, clustered, out);
    } else {
        let v = visited.update(i as int, true);
        let ns = nb[i as int];
        assert forall|j: int| 0 <= j < ns.len() implies #[trigger] ns[j] < n by {}
        if ns.len() >= min_points {
            let c0 = clustered.update(i as int, true);
            let c = mark_all(ns, c0);
            lemma_mark_all(ns, c0);
            let cl0 = seq![i as usize] + ns;
            assert(cl0[0] as int == i);
            assert forall|p: int| 0 <= p < n && #[trigger] c[p] implies in_clusters(out, p) || listed(cl0, p) by {
                if p == i {
                    assert(listed(cl0, p));
                } else if listed(ns, p) {
                    let j = choose|j: int| 0 <= j < ns.len() && #[trigger] ns[j] as int == p;
                    assert(cl0[j + 1] == ns[j]);
                } else {
                    assert(c0[p] == clustered[p]);
                }
            }
            assert forall|p: int| 0 <= p < n && #[trigger] v[p] && dense(nb, min_points, p) implies in_clusters(out, p)
                || listed(cl0, p) by {
                if p == i {
                    assert(listed(cl0, p));
                } else {
                    assert(v[p] == visited[p]);
                }
            }
            assert forall|j: int| 0 <= j < ns.len() implies #[trigger] ns[j] < n && c[ns[j] as int] by {
                assert(listed(ns, ns[j] as int));
            }
            assert forall|j: int| 0 <= j < cl0.len() implies #[trigger] cl0[j] < n by {
                if j > 0 {
                    assert(cl0[j] == ns[j - 1]);
                }
            }
            lemma_grow(nb, min_points, v, c, cl0, ns, out);
            assert forall|p: int| 0 <= p < n && #[trigger] c[p] implies v[p] || listed(ns, p) by {
                if p != i && !listed(ns, p) {
                    assert(c0[p] == clustered[p]);
                    assert(v[p] == visited[p]);
                }
            }
            assert(closed_marks(nb, min_points, v, c)) by {
                assert forall|p: int| 0 <= p < n && #[trigger] v[p] && dense(nb, min_points, p) implies all_marked(nb[p], c) by {
                    if p == i {
                        assert forall|j: int| 0 <= j < ns.len() implies c[#[trigger] ns[j] as int] by {
                            assert(listed(ns, ns[j] as int));
                        }
                    } else {
                        assert(v[p] == visited[p]);
                        assert(all_marked(nb[p], clustered));
                        assert forall|j: int| 0 <= j < nb[p].len() implies c[#[trigger] nb[p][j] as int] by {
                            assert(clustered[nb[p][j] as int]);
                            assert(c0[nb[p][j] as int]);
                        }
                    }
                }
            }
            assert forall|j: int| 0 <= j < cl0.len() implies #[trigger] cl0[j] < n && c[cl0[j] as int] by {
                if j > 0 {
                    assert(cl0[j] == ns[j - 1]);
                    assert(listed(ns, ns[j - 1] as int));
                }
            }
            lemma_grow_closes(nb, min_points, v, c, cl0, ns);
            let (v2, c2, cl) = grow(nb, min_points, v, c, cl0, ns);
            let out2 = out.push(cl);
            assert forall|a: int, b: int| 0 <= a < out2.len() && 0 <= b < out2[a].len() implies c2[#[trigger] out2[a][b] as int] by {
                if a < out.len() {
                    assert(out2[a] == out[a]);
                    let p = out[a][b] as int;
                    assert(out[a][b] < nb.len());
                    assert(clustered[p]);
                    assert(c0[p]);
                    assert(c[p]);
                } else {
                    assert(out2[a] == cl);
                }
            }
            assert(cl[0] == cl0[0]);
            assert(well_seeded(out2, nb, min_points)) by {
                assert forall|a: int| 0 <= a < out2.len() implies (#[trigger] out2[a]).len() > 0 && dense(
                    nb,
                    min_points,
                    out2[a][0] as int,
                ) && forall|b: int| 0 <= b < out2[a].len() ==> #[trigger] out2[a][b] < nb.len() by {
                    if a < out.len() {
                        assert(out2[a] == out[a]);
                    }
                }
            }
            assert forall|p: int| 0 <= p < n && #[trigger] c2[p] implies in_clusters(out2, p) by {
                lemma_in_clusters_push(out, cl, p);
            }
            assert forall|p: int| 0 <= p < n && #[trigger] v2[p] && dense(nb, min_points, p) implies in_clusters(out2, p) by {
                lemma_in_clusters_push(out, cl, p);
            }
            assert forall|p: int| 0 <= p < i + 1 implies #[trigger] v2[p] || c2[p] by {
                if p == i {
                    assert(v[p]);
                } else if visited[p] {
                    assert(v[p]);
                } else {
                    assert(clustered[p]);
                    assert(c0[p]);
                    assert(c[p]);
                }
            }
            lemma_clusters_from(nb, min_points, i + 1, v2, c2, out2);
        } else {
            assert forall|p: int| 0 <= p < n && #[trigger] v[p] && dense(nb, min_points, p) implies in_clusters(out, p) by {
                assert(v[p] == visited[p]);
            }
            assert forall|p: int| 0 <= p < i + 1 implies #[trigger] v[p] || clustered[p] by {
                if p < i {
                    assert(v[p] == visited[p]);
                }
            }
            assert forall|p: int| 0 <= p < n && #[trigger] clustered[p] implies v[p] by {
                if p != i {
                    assert(v[p] == visited[p]);
                }
            }
            assert(closed_marks(nb, min_points, v, clustered)) by {
                assert forall|p: int| 0 <= p < n && #[trigger] v[p] && dense(nb, min_points, p) implies all_marked(nb[p], clustered) by {
                    if p != i {
                        assert(v[p] == visited[p]);
                    }
                }
            }
            lemma_clusters_from(nb, min_points, i + 1, v, clustered, out);
        }
    }
}

/// What the clusters are: each is seeded by a point with at least
/// `min_points` neighbours and lists points of `0..nb.len()` only, every
/// point with at least `min_points` neighbours lies in some cluster, and
/// every neighbour of a clustered point with at least `min_points`
/// neighbours lies in some cluster.
pub proof fn lemma_seed_clusters(nb: Seq<Seq<usize>>, min_points: usize)
    requires
        neighbors_in_range(nb),
        nb.len() <= usize::MAX,
    ensures
        well_seeded(seed_clusters(nb, min_points), nb, min_points),
        forall|p: int|
            0 <= p < nb.len() && dense(nb, min_points, p) ==> #[trigger] in_clusters(seed_clusters(nb, min_points), p),
        closed_clusters(seed_clusters(nb, min_points), nb, min_points),
{
    let none = Seq::new(nb.len(), |k: int| false);
    lemma_clusters_from(nb, min_points, 0, none, none, Seq::empty());
}

/// Marks each of `ns` as clustered.
fn mark_each(ns: &Vec<usize>, clustered: &mut Vec<bool>)
    ensures
        final(clustered)@ == mark_all(ns@, old(clustered)@),
{
    let ghost c0 = clustered@;
    let mut j: usize = 0;
    assert(ns@.take(0) =~= Seq::<usize>::empty());
    while j < ns.len()
        invariant
            j <= ns@.len(),
            clustered@ == mark_all(ns@.take(j as int), c0),
        decreases ns@.len() - j,
    {
        assert(ns@.take(j + 1).drop_last() =~= ns@.take(j as int));
        assert(ns@.take(j + 1).last() == ns@[j as int]);
        let n = ns[j];
        if n < clustered.len() {
            clustered.set(n, true);
        }
        j = j + 1;
    }
    assert(ns@.take(ns@.len() as int) =~= ns@);
}

/// Takes in each of `ns` that is not clustered yet.
fn take_each(ns: &Vec<usize>, clustered: &mut Vec<bool>, cluster: &mut Vec<usize>, queue: &mut Vec<usize>)
    ensures
        (final(clustered)@, final(cluster)@, final(queue)@) == take_new(
            ns@,
            old(clustered)@,
            old(cluster)@,
            old(queue)@,
        ),
{
    let ghost c0 = clustered@;
    let ghost cl0 = cluster@;
    let ghost q0 = queue@;
    let mut j: usize = 0;
    assert(ns@.take(0) =~= Seq::<usize>::empty());
    while j < ns.len()
        invariant
            j <= ns@.len(),
            (clustered@, cluster@, queue@) == take_new(ns@.take(j as int), c0, cl0, q0),
        decreases ns@.len() - j,
    {
        assert(ns@.take(j + 1).drop_last() =~= ns@.take(j as int));
        assert(ns@.take(j + 1).last() == ns@[j as int]);
        let n = ns[j];
        if n < clustered.len() && !clustered[n] {
            clustered.set(n, true);
            cluster.push(n);
            queue.push(n);
        }
        j = j + 1;
    }
    assert(ns@.take(ns@.len() as int) =~= ns@);
}

/// Grows a cluster until its queue is empty.
fn grow_cluster(
    neighbors: &Vec<Vec<usize>>,
    min_points: usize,
    visited: &mut Vec<bool>,
    clustered: &mut Vec<bool>,
    cluster: &mut Vec<usize>,
    queue: Vec<usize>,
)
    requires
        old(visited)@.len() == neighbors@.len(),
        old(clustered)@.len() == neighbors@.len(),
    ensures
        (final(visited)@, final(clustered)@, final(cluster)@) == grow(
            neighbor_views(neighbors@),
            min_points,
            old(visited)@,
            old(clustered)@,
            old(cluster)@,
            queue@,
        ),
{
    let ghost nb = neighbor_views(neighbors@);
    let ghost target = grow(nb, min_points, visited@, clustered@, cluster@, queue@);
    let mut queue = queue;
    while queue.len() > 0
        invariant
            nb == neighbor_views(neighbors@),
            nb.len() == neighbors@.len(),
            visited@.len() == neighbors@.len(),
            clustered@.len() == neighbors@.len(),
            grow(nb, min_points, visited@, clustered@, cluster@, queue@) == target,
        decreases unvisited(visited@), queue@.len(),
    {
        let ghost q = queue@;
        let cur = queue.pop().unwrap();
        assert(queue@ == q.drop_last() && cur == q.last());
        if cur < visited.len() && !visited[cur] {
            proof {
                lemma_visit(visited@, cur as int);
            }
            visited.set(cur, true);
            let current = &neighbors[cur];
            assert(current@ == nb[cur as int]);
            if current.len() >= min_points {
                proof {
                    lemma_lengths(nb[cur as int], clustered@, cluster@, queue@);
                }
                take_each(current, clustered, cluster, &mut queue);
            }
        }
    }
}

/// The clusters of points `0..neighbors.len()` with at least `min_points`
/// neighbours, where `neighbors[i]` lists the points close to point `i`:
/// each cluster its seed first, then the points it took in, in the order
/// they joined. Every seed has at least `min_points` neighbours, every
/// such point lies in some cluster, and every neighbour of a clustered
/// point with at least `min_points` neighbours lies in some cluster. Clusters need not be disjoint: a seed
/// takes in all its neighbours, also those another cluster already holds.
pub fn cluster_indices(neighbors: &Vec<Vec<usize>>, min_points: usize) -> (cs: Vec<Vec<usize>>)
    requires
        neighbors_in_range(neighbor_views(neighbors@)),
    ensures
        neighbor_views(cs@) == seed_clusters(neighbor_views(neighbors@), min_points),
        well_seeded(neighbor_views(cs@), neighbor_views(neighbors@), min_points),
        closed_clusters(neighbor_views(cs@), neighbor_views(neighbors@), min_points),
        forall|p: int|
            0 <= p < neighbors@.len() && dense(neighbor_views(neighbors@), min_points, p) ==> #[trigger] in_clusters(
                neighbor_views(cs@),
                p,
            ),
{
    let ghost nb = neighbor_views(neighbors@);
    let n = neighbors.len();
    let mut visited: Vec<bool> = Vec::new();
    let mut clustered: Vec<bool> = Vec::new();
    let mut k: usize = 0;
    while k < n
        invariant
            k <= n,
            n == neighbors@.len(),
            visited@ == Seq::new(k as nat, |j: int| false),
            clustered@ == Seq::new(k as nat, |j: int| false),
        decreases n - k,
    {
        visited.push(false);
        clustered.push(false);
        k = k + 1;
        assert(visited@ =~= Seq::new(k as nat, |j: int| false));
        assert(clustered@ =~= Seq::new(k as nat, |j: int| false));
    }
    let mut out: Vec<Vec<usize>> = Vec::new();
    let ghost target = seed_clusters(nb, min_points);
    assert(out@.map_values(|c: Vec<usize>| c@) =~= Seq::<Seq<usize>>::empty());
    let mut i: usize = 0;
    while i < n
        invariant
            i <= n,
            n == neighbors@.len(),
            nb == neighbor_views(neighbors@),
            nb.len() == n,
            visited@.len() == n,
            clustered@.len() == n,
            clusters_from(nb, min_points, i as nat, visited@, clustered@, out@.map_values(|c: Vec<usize>| c@))
                == target,
        decreases n - i,
    {
        if !visited[i] && !clustered[i] {
            visited.set(i, true);
            let ns = &neighbors[i];
            assert(ns@ == nb[i as int]);
            if ns.len() >= min_points {
                let ghost before = clustered@;
                clustered.set(i, true);
                mark_each(ns, &mut clustered);
                proof {
                    lemma_lengths(ns@, before.update(i as int, true), Seq::empty(), Seq::empty());
                }
                let mut cluster: Vec<usize> = Vec::new();
                cluster.push(i);
                let mut j: usize = 0;
                while j < ns.len()
                    invariant
                        j <= ns@.len(),
                        cluster@ == seq![i] + ns@.take(j as int),
                    decreases ns@.len() - j,
                {
                    cluster.push(ns[j]);
                    j = j + 1;
                    assert(cluster@ =~= seq![i] + ns@.take(j as int));
                }
                assert(ns@.take(ns@.len() as int) =~= ns@);
                let queue = ns.clone();
                assert(queue@ == ns@);
                let ghost v1 = visited@;
                let ghost c1 = clustered@;
                grow_cluster(neighbors, min_points, &mut visited, &mut clustered, &mut cluster, queue);
                proof {
                    lemma_grow_lengths(nb, min_points, v1, c1, seq![i] + ns@, ns@);
                }
                let ghost prev = out@.map_values(|c: Vec<usize>| c@);
                let ghost cv = cluster@;
                out.push(cluster);
                assert(out@.map_values(|c: Vec<usize>| c@) =~= prev.push(cv));
            }
        }
        i = i + 1;
    }
    proof {
        lemma_seed_clusters(nb, min_points);
    }
    out
}

} // verus!
