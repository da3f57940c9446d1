//! Shortest paths by priority-queue relaxation, described as a state machine
//! over vertex positions.
use crate::graph::GraphModel;
use vstd::prelude::*;

verus! {

/// The state of a relaxation run: the best distance known for each vertex
/// (`usize::MAX` standing for none), the vertex each was reached from, the
/// queue of (distance, vertex) entries in the order they were added, whether
/// the target's entry has come first in the queue, and the vertices whose
/// edges have been relaxed, in the order they were.
pub struct Relax {
    pub dist: Seq<usize>,
    pub prev: Seq<Option<usize>>,
    pub queue: Seq<(usize, usize)>,
    pub reached: bool,
    pub done: Seq<usize>,
}

/// Addition that stops at `usize::MAX`, which stands for "no distance".
pub open spec fn sat_add(a: usize, b: usize) -> usize {
    if a + b > usize::MAX {
        usize::MAX
    } else {
        (a + b) as usize
    }
}

/// The position of the queue entry taken next: the one with the least
/// distance, and among those the one added first.
pub open spec fn min_pos(q: Seq<(usize, usize)>) -> int
    decreases q.len(),
{
    if q.len() <= 1 {
        0
    } else {
        let j = min_pos(q.drop_last());
        if q.last().0 < q[j].0 {
            q.len() - 1
        } else {
            j
        }
    }
}

/// Relaxes `edges` of vertex `u`, whose distance is `du`, in order: where the
/// way through `u` is strictly shorter, the target's distance and predecessor
/// are updated and a queue entry is added for it.
pub open spec fn relax_edges(edges: Seq<(usize, usize)>, u: usize, du: usize, r: Relax) -> Relax
    decreases edges.len(),
{
    if edges.len() == 0 {
        r
    } else {
        let w = edges[0].0;
        let c = sat_add(du, edges[0].1);
        let r2 = if c < r.dist[w as int] {
            Relax {
                dist: r.dist.update(w as int, c),
                prev: r.prev.update(w as int, Some(u)),
                queue: r.queue.push((c, w)),
                ..r
            }
        } else {
            r
        };
        relax_edges(edges.drop_first(), u, du, r2)
    }
}

/// The start of a run from `s`: distance 0 for `s`, none for the others, no
/// predecessors, and one queue entry per vertex, in vertex order.
pub open spec fn relax_start<T>(m: GraphModel<T>, s: usize) -> Relax {
    let dist = Seq::new(m.verts.len(), |j: int| if j == s { 0usize } else { usize::MAX });
    Relax {
        dist: dist,
        prev: Seq::new(m.verts.len(), |j: int| None),
        queue: Seq::new(m.verts.len(), |j: int| (dist[j], j as usize)),
        reached: false,
        done: Seq::empty(),
    }
}

/// `done` with `u` added at the end, unless it is there already.
pub open spec fn mark(done: Seq<usize>, u: usize) -> Seq<usize> {
    if done.contains(u) {
        done
    } else {
        done.push(u)
    }
}

pub proof fn lemma_mark(done: Seq<usize>, u: usize)
    ensures
        forall|v: usize| #[trigger] mark(done, u).contains(v) <==> done.contains(v) || v == u,
        done.no_duplicates() ==> mark(done, u).no_duplicates(),
        forall|i: int| 0 <= i < done.len() ==> #[trigger] mark(done, u)[i] == done[i],
        mark(done, u).len() >= done.len(),
        mark(done, u).contains(u),
{
    if !done.contains(u) {
        let d = done.push(u);
        assert(d[done.len() as int] == u);
        assert forall|v: usize| #[trigger] d.contains(v) <==> done.contains(v) || v == u by {
            if d.contains(v) {
                let i = choose|i: int| 0 <= i < d.len() && d[i] == v;
                if i < done.len() {
                    assert(done[i] == v);
                }
            }
            if done.contains(v) {
                let i = choose|i: int| 0 <= i < done.len() && done[i] == v;
                assert(d[i] == v);
            }
        }
    }
}

/// One round: look at the next queue entry; stop if it is for the target `e`,
/// else take it out and relax the edges of its vertex from that vertex's
/// current distance.
pub open spec fn relax_step<T>(m: GraphModel<T>, r: Relax, e: usize) -> Relax {
    let p = min_pos(r.queue);
    let u = r.queue[p].1;
    if u == e {
        Relax { reached: true, ..r }
    } else {
        relax_edges(m.adj[u as int], u, r.dist[u as int], Relax { queue: r.queue.remove(p), done: mark(r.done, u), ..r })
    }
}

pub open spec fn relax_done(r: Relax) -> bool {
    r.reached || r.queue.len() == 0
}

pub open spec fn relax_run<T>(m: GraphModel<T>, r: Relax, e: usize, k: nat) -> Relax
    decreases k,
{
    if k == 0 || relax_done(r) {
        r
    } else {
        relax_run(m, relax_step(m, r, e), e, (k - 1) as nat)
    }
}

/// The state in which a run from `s` towards `e` stops.
pub open spec fn settled<T>(m: GraphModel<T>, s: usize, e: usize) -> Relax {
    let k = choose|k: nat| relax_done(relax_run(m, relax_start(m, s), e, k));
    relax_run(m, relax_start(m, s), e, k)
}

/// What holds in every state of a run from `s`: each predecessor link follows
/// an edge between vertices that have distances, and `s` is the only vertex
/// with a distance and no predecessor.
pub open spec fn relax_inv<T>(m: GraphModel<T>, s: usize, r: Relax) -> bool {
    let n = m.verts.len();
    &&& r.dist.len() == n
    &&& r.prev.len() == n
    &&& forall|j: int| 0 <= j < r.queue.len() ==> (#[trigger] r.queue[j]).1 < n
    &&& forall|v: int|
        0 <= v < n && (#[trigger] r.prev[v]).is_some() ==> {
            let u = r.prev[v].unwrap() as int;
            &&& 0 <= u < n
            &&& m.is_edge(u, v)
            &&& r.dist[u] < usize::MAX
            &&& r.dist[v] < usize::MAX
        }
    &&& forall|v: int| 0 <= v < n && (#[trigger] r.dist[v]) < usize::MAX && r.prev[v].is_none() ==> v == s
}

pub proof fn lemma_relax_edges_inv<T>(m: GraphModel<T>, s: usize, edges: Seq<(usize, usize)>, u: usize, du: usize, r: Relax, k0: int)
    requires
        m.wf(),
        relax_inv(m, s, r),
        u < m.verts.len(),
        r.dist[u as int] <= du,
        du < usize::MAX ==> r.dist[u as int] < usize::MAX,
        0 <= k0,
        k0 + edges.len() == m.adj[u as int].len(),
        forall|k: int| 0 <= k < edges.len() ==> #[trigger] edges[k] == m.adj[u as int][k0 + k],
    ensures
        relax_inv(m, s, relax_edges(edges, u, du, r)),
        relax_edges(edges, u, du, r).reached == r.reached,
    decreases edges.len(),
{
    if edges.len() > 0 {
        let w = edges[0].0;
        let c = sat_add(du, edges[0].1);
        assert(edges[0] == m.adj[u as int][k0]);
        assert(w < m.verts.len());
        let r2 = if c < r.dist[w as int] {
            Relax {
                dist: r.dist.update(w as int, c),
                prev: r.prev.update(w as int, Some(u)),
                queue: r.queue.push((c, w)),
                ..r
            }
        } else {
            r
        };
        if c < r.dist[w as int] {
            assert(w != u);
            assert(m.is_edge(u as int, w as int));
            assert forall|v: int| 0 <= v < m.verts.len() && (#[trigger] r2.prev[v]).is_some() implies ({
                let x = r2.prev[v].unwrap() as int;
                &&& 0 <= x < m.verts.len()
                &&& m.is_edge(x, v)
                &&& r2.dist[x] < usize::MAX
                &&& r2.dist[v] < usize::MAX
            }) by {
                if v != w {
                    assert(r2.prev[v] == r.prev[v]);
                    let x = r.prev[v].unwrap() as int;
                    assert(r.dist[x] < usize::MAX);
                    if x == w {
                        assert(r2.dist[x] == c);
                    }
                }
            }
            assert forall|v: int| 0 <= v < m.verts.len() && (#[trigger] r2.dist[v]) < usize::MAX && r2.prev[v].is_none() implies v == s by {
                if v != w {
                    assert(r2.dist[v] == r.dist[v]);
                }
            }
            assert forall|j: int| 0 <= j < r2.queue.len() implies (#[trigger] r2.queue[j]).1 < m.verts.len() by {
                if j < r.queue.len() {
                    assert(r2.queue[j] == r.queue[j]);
                }
            }
        }
        assert forall|k: int| 0 <= k < edges.drop_first().len() implies #[trigger] edges.drop_first()[k] == m.adj[u as int][(k0 + 1) + k] by {
            assert(edges.drop_first()[k] == edges[k + 1]);
        }
        lemma_relax_edges_inv(m, s, edges.drop_first(), u, du, r2, k0 + 1);
    }
}

pub proof fn lemma_relax_run_inv<T>(m: GraphModel<T>, s: usize, e: usize, r: Relax, k: nat)
    requires
        m.wf(),
        relax_inv(m, s, r),
    ensures
        relax_inv(m, s, relax_run(m, r, e, k)),
    decreases k,
{
    if k > 0 && !relax_done(r) {
        let p = min_pos(r.queue);
        lemma_min_pos_least(r.queue);
        let u = r.queue[p].1;
        let rest = Relax { queue: r.queue.remove(p), done: mark(r.done, u), ..r };
        assert forall|j: int| 0 <= j < rest.queue.len() implies (#[trigger] rest.queue[j]).1 < m.verts.len() by {
            if j < p {
                assert(rest.queue[j] == r.queue[j]);
            } else {
                assert(rest.queue[j] == r.queue[j + 1]);
            }
        }
        if u != e {
            assert forall|q: int| 0 <= q < m.adj[u as int].len() implies #[trigger] m.adj[u as int][q] == m.adj[u as int][0 + q] by {}
            lemma_relax_edges_inv(m, s, m.adj[u as int], u, r.dist[u as int], rest, 0);
        }
        lemma_relax_run_inv(m, s, e, relax_step(m, r, e), (k - 1) as nat);
    }
}

pub proof fn lemma_start_relax_inv<T>(m: GraphModel<T>, s: usize)
    requires
        m.wf(),
        s < m.verts.len(),
    ensures
        relax_inv(m, s, relax_start(m, s)),
{
}

/// Following predecessors from a vertex with a distance stays on edges,
/// backwards, and where it stops at a vertex without predecessor it has
/// reached `s`.
pub proof fn lemma_trail_walk<T>(m: GraphModel<T>, s: usize, r: Relax, v: usize, fuel: nat)
    requires
        m.wf(),
        relax_inv(m, s, r),
        v < m.verts.len(),
        r.dist[v as int] < usize::MAX,
    ensures
        trail(r.prev, v, fuel).len() > 0,
        trail(r.prev, v, fuel)[0] == v,
        m.is_walk(trail(r.prev, v, fuel).reverse()),
        r.prev[trail(r.prev, v, fuel).last() as int] is None ==> trail(r.prev, v, fuel).last() == s,
    decreases fuel,
{
    let t = trail(r.prev, v, fuel);
    match r.prev[v as int] {
        Some(u) if fuel > 0 => {
            lemma_trail_walk(m, s, r, u, (fuel - 1) as nat);
            let t1 = trail(r.prev, u, (fuel - 1) as nat);
            assert(t == seq![v] + t1);
            assert(t.last() == t1.last());
            let p1 = t1.reverse();
            let p = t.reverse();
            assert(p =~= p1.push(v));
            assert(p1.last() == u) by {
                assert(p1[p1.len() - 1] == t1[0]);
            }
            assert(m.is_edge(u as int, v as int));
            assert forall|i: int| 0 <= i < p.len() - 1 implies m.is_edge(p[i] as int, #[trigger] p[i + 1] as int) by {
                if i < p.len() - 2 {
                    assert(p[i] == p1[i] && p[i + 1] == p1[i + 1]);
                } else {
                    assert(p[i] == u);
                }
            }
            assert forall|i: int| 0 <= i < p.len() implies p[i] < m.verts.len() by {
                if i < p.len() - 1 {
                    assert(p[i] == p1[i]);
                }
            }
        },
        _ => {
            assert(t == seq![v]);
            assert(t.reverse() =~= seq![v]);
        },
    }
}

/// `v`, then its predecessor, and so on, following at most `fuel` links.
pub open spec fn trail(prev: Seq<Option<usize>>, v: usize, fuel: nat) -> Seq<usize>
    decreases fuel,
{
    match prev[v as int] {
        Some(u) if fuel > 0 => seq![v] + trail(prev, u, (fuel - 1) as nat),
        _ => seq![v],
    }
}

/// The path the relaxation finds from `s` to `e`, read back from `e` along
/// predecessors; none when `e` got no distance.
pub open spec fn shortest_path<T>(m: GraphModel<T>, s: usize, e: usize) -> Option<Seq<usize>> {
    let r = settled(m, s, e);
    let back = trail(r.prev, e, m.verts.len());
    if r.reached && r.dist[e as int] < usize::MAX && r.prev[back.last() as int] is None {
        Some(back.reverse())
    } else {
        None
    }
}

/// The sum of the entries of `s`.
pub open spec fn total(s: Seq<usize>) -> int
    decreases s.len(),
{
    if s.len() == 0 {
        0
    } else {
        total(s.drop_last()) + s.last()
    }
}

pub proof fn lemma_total_nonneg(s: Seq<usize>)
    ensures
        total(s) >= 0,
    decreases s.len(),
{
    if s.len() > 0 {
        lemma_total_nonneg(s.drop_last());
    }
}

pub proof fn lemma_total_update(s: Seq<usize>, i: int, x: usize)
    requires
        0 <= i < s.len(),
    ensures
        total(s.update(i, x)) == total(s) - s[i] + x,
    decreases s.len(),
{
    let t = s.update(i, x);
    if i == s.len() - 1 {
        assert(t.drop_last() =~= s.drop_last());
    } else {
        assert(t.drop_last() =~= s.drop_last().update(i, x));
        lemma_total_update(s.drop_last(), i, x);
    }
}

pub proof fn lemma_relax_run_add<T>(m: GraphModel<T>, r: Relax, e: usize, a: nat, b: nat)
    ensures
        relax_run(m, r, e, a + b) == relax_run(m, relax_run(m, r, e, a), e, b),
    decreases a,
{
    if a > 0 && !relax_done(r) {
        lemma_relax_run_add(m, relax_step(m, r, e), e, (a - 1) as nat, b);
        assert((a + b - 1) as nat == ((a - 1) as nat + b) as nat);
    }
}

/// Once a run of `k` rounds is done, it is the settled state.
pub proof fn lemma_settled_is<T>(m: GraphModel<T>, s: usize, e: usize, k: nat)
    requires
        relax_done(relax_run(m, relax_start(m, s), e, k)),
    ensures
        settled(m, s, e) == relax_run(m, relax_start(m, s), e, k),
{
    let r = relax_start(m, s);
    let j = choose|j: nat| relax_done(relax_run(m, r, e, j));
    if j <= k {
        lemma_relax_run_add(m, r, e, j, (k - j) as nat);
        assert(k == j + (k - j) as nat);
    } else {
        lemma_relax_run_add(m, r, e, k, (j - k) as nat);
        assert(j == k + (j - k) as nat);
    }
}

/// A walk given by its vertices and, for each step, the position of the edge
/// it takes among its source's edges.
pub open spec fn is_weighted_walk<T>(m: GraphModel<T>, p: Seq<usize>, ks: Seq<int>) -> bool {
    &&& p.len() == ks.len() + 1
    &&& forall|i: int| 0 <= i < p.len() ==> #[trigger] p[i] < m.verts.len()
    &&& forall|i: int|
        0 <= i < ks.len() ==> 0 <= #[trigger] ks[i] < m.adj[p[i] as int].len() && m.adj[p[i] as int][ks[i]].0
            == p[i + 1]
}

/// The total weight of the edges a walk takes.
pub open spec fn weight<T>(m: GraphModel<T>, p: Seq<usize>, ks: Seq<int>) -> int
    decreases ks.len(),
{
    if ks.len() == 0 {
        0
    } else {
        weight(m, p.drop_last(), ks.drop_last()) + m.adj[p[ks.len() - 1] as int][ks.last()].1
    }
}

/// `p` leads from `s` to `e` along edges whose weights add up to no more than
/// those of any other walk from `s` to `e`.
pub open spec fn is_lightest<T>(m: GraphModel<T>, s: usize, e: usize, p: Seq<usize>) -> bool {
    &&& p.len() > 0
    &&& p[0] == s
    &&& p.last() == e
    &&& exists|ks: Seq<int>|
        #![trigger is_weighted_walk(m, p, ks)]
        is_weighted_walk(m, p, ks) && forall|q: Seq<usize>, qs: Seq<int>|
            #![trigger is_weighted_walk(m, q, qs)]
            is_weighted_walk(m, q, qs) && q[0] == s && q.last() == e ==> weight(m, p, ks) <= weight(m, q, qs)
}

/// What holds in every state of a run from `s` towards `e`, besides
/// `relax_inv`: queue keys are never below the distances; every vertex not yet
/// relaxed has an entry at its distance; the edges of relaxed vertices are
/// relaxed (but, while `x` is being relaxed, those of its edges from position
/// `k0` on); relaxed vertices have distances no greater than any queue key;
/// predecessors lie along edges that account for the distance; and once the
/// target is reached, its entry is the one that comes first.
pub open spec fn opt_inv<T>(m: GraphModel<T>, s: usize, e: usize, r: Relax, x: int, k0: int) -> bool {
    let n = m.verts.len();
    &&& s < n
    &&& r.dist[s as int] == 0
    &&& !r.done.contains(e)
    &&& forall|v: usize| #[trigger] r.done.contains(v) ==> v < n
    &&& forall|j: int| 0 <= j < r.queue.len() ==> (#[trigger] r.queue[j]).0 >= r.dist[r.queue[j].1 as int]
    &&& forall|v: int| 0 <= v < n && !r.done.contains(v as usize) ==> r.queue.contains((#[trigger] r.dist[v], v as usize))
    &&& forall|u: usize, k: int|
        r.done.contains(u) && 0 <= k < m.adj[u as int].len() && !(u == x && k >= k0) ==> r.dist[(#[trigger] m.adj[u as int][k]).0 as int]
            <= sat_add(r.dist[u as int], m.adj[u as int][k].1)
    &&& forall|u: usize, j: int| #[trigger] r.done.contains(u) && 0 <= j < r.queue.len() ==> r.dist[u as int] <= (#[trigger] r.queue[j]).0
    &&& prev_accounts(m, r)
    &&& r.reached ==> r.queue.len() > 0 && r.queue[min_pos(r.queue)].1 == e
}

/// Each predecessor link lies along an edge whose weight, added to the
/// predecessor's distance, is at most the vertex's distance.
pub open spec fn prev_accounts<T>(m: GraphModel<T>, r: Relax) -> bool {
    forall|v: int|
        0 <= v < m.verts.len() && (#[trigger] r.prev[v]).is_some() ==> exists|k: int|
            0 <= k < m.adj[r.prev[v].unwrap() as int].len() && (#[trigger] m.adj[r.prev[v].unwrap() as int][k]).0 == v
                && r.dist[r.prev[v].unwrap() as int] + m.adj[r.prev[v].unwrap() as int][k].1 <= r.dist[v]
}

pub proof fn lemma_min_pos_least(q: Seq<(usize, usize)>)
    requires
        q.len() > 0,
    ensures
        0 <= min_pos(q) < q.len(),
        forall|j: int| 0 <= j < q.len() ==> q[min_pos(q)].0 <= (#[trigger] q[j]).0,
    decreases q.len(),
{
    if q.len() > 1 {
        lemma_min_pos_least(q.drop_last());
        assert forall|j: int| 0 <= j < q.len() implies q[min_pos(q)].0 <= (#[trigger] q[j]).0 by {
            if j < q.len() - 1 {
                assert(q.drop_last()[j] == q[j]);
            }
        }
    }
}

pub proof fn lemma_start_opt_inv<T>(m: GraphModel<T>, s: usize, e: usize)
    requires
        m.wf(),
        s < m.verts.len(),
    ensures
        opt_inv(m, s, e, relax_start(m, s), -1, 0),
{
    let r = relax_start(m, s);
    assert forall|v: int| 0 <= v < m.verts.len() && !r.done.contains(v as usize) implies r.queue.contains((#[trigger] r.dist[v], v as usize)) by {
        assert(r.queue[v] == (r.dist[v], v as usize));
    }
}

/// The weight of a walk's first `i` steps is at most the whole walk's.
pub proof fn lemma_weight_prefix<T>(m: GraphModel<T>, p: Seq<usize>, ks: Seq<int>, i: int)
    requires
        is_weighted_walk(m, p, ks),
        0 <= i <= ks.len(),
    ensures
        is_weighted_walk(m, p.subrange(0, i + 1), ks.subrange(0, i)),
        weight(m, p.subrange(0, i + 1), ks.subrange(0, i)) <= weight(m, p, ks),
    decreases ks.len() - i,
{
    let p1 = p.subrange(0, i + 1);
    let k1 = ks.subrange(0, i);
    assert forall|j: int| 0 <= j < k1.len() implies 0 <= #[trigger] k1[j] < m.adj[p1[j] as int].len() && m.adj[p1[j] as int][k1[j]].0 == p1[j + 1] by {
        assert(k1[j] == ks[j] && p1[j] == p[j] && p1[j + 1] == p[j + 1]);
    }
    assert forall|j: int| 0 <= j < p1.len() implies #[trigger] p1[j] < m.verts.len() by {
        assert(p1[j] == p[j]);
    }
    if i < ks.len() {
        lemma_weight_prefix(m, p, ks, i + 1);
        let p2 = p.subrange(0, i + 2);
        let k2 = ks.subrange(0, i + 1);
        assert(p2.drop_last() =~= p1);
        assert(k2.drop_last() =~= k1);
        assert(m.adj[p2[k2.len() - 1] as int][k2.last()].1 >= 0);
    } else {
        assert(p1 =~= p);
        assert(k1 =~= ks);
    }
}

/// Along a walk from `s` whose first `i` vertices have all been relaxed, the
/// distance of the next vertex is at most the weight of the walk up to it.
pub proof fn lemma_relaxed_prefix<T>(m: GraphModel<T>, s: usize, e: usize, r: Relax, p: Seq<usize>, ks: Seq<int>, i: int)
    requires
        m.wf(),
        relax_inv(m, s, r),
        opt_inv(m, s, e, r, -1, 0),
        is_weighted_walk(m, p, ks),
        p[0] == s,
        0 <= i < p.len(),
        forall|j: int| 0 <= j < i ==> r.done.contains(#[trigger] p[j]),
    ensures
        r.dist[p[i] as int] <= weight(m, p.subrange(0, i + 1), ks.subrange(0, i)),
    decreases i,
{
    if i > 0 {
        lemma_relaxed_prefix(m, s, e, r, p, ks, i - 1);
        let u = p[i - 1];
        let k = ks[i - 1];
        assert(r.done.contains(p[i - 1]));
        assert(0 <= ks[i - 1] < m.adj[p[i - 1] as int].len() && m.adj[p[i - 1] as int][ks[i - 1]].0 == p[(i - 1) + 1]);
        assert(r.dist[m.adj[u as int][k].0 as int] <= sat_add(r.dist[u as int], m.adj[u as int][k].1));
        let p1 = p.subrange(0, i + 1);
        let k1 = ks.subrange(0, i);
        assert(p1.drop_last() =~= p.subrange(0, i));
        assert(k1.drop_last() =~= ks.subrange(0, i - 1));
        assert(p1[k1.len() - 1] == u && k1.last() == k);
    } else {
        assert(ks.subrange(0, 0).len() == 0);
    }
}

proof fn lemma_first_unrelaxed<T>(m: GraphModel<T>, s: usize, e: usize, r: Relax, p: Seq<usize>, ks: Seq<int>, i: int)
    requires
        m.wf(),
        relax_inv(m, s, r),
        opt_inv(m, s, e, r, -1, 0),
        is_weighted_walk(m, p, ks),
        p[0] == s,
        !r.done.contains(p.last()),
        0 <= i < p.len(),
        forall|j: int| 0 <= j < i ==> r.done.contains(#[trigger] p[j]),
    ensures
        r.queue.len() > 0,
        r.queue[min_pos(r.queue)].0 <= weight(m, p, ks),
    decreases p.len() - i,
{
    if r.done.contains(p[i]) {
        lemma_first_unrelaxed(m, s, e, r, p, ks, i + 1);
    } else {
        lemma_relaxed_prefix(m, s, e, r, p, ks, i);
        lemma_weight_prefix(m, p, ks, i);
        let v = p[i];
        assert(r.queue.contains((r.dist[v as int], v)));
        let q = choose|q: int| 0 <= q < r.queue.len() && r.queue[q] == (r.dist[v as int], v);
        lemma_min_pos_least(r.queue);
        assert(r.queue[min_pos(r.queue)].0 <= r.queue[q].0);
    }
}

/// The first queue entry's key bounds from below the weight of every walk
/// from `s` to a vertex whose edges have not been relaxed.
pub proof fn lemma_queue_lower_bound<T>(m: GraphModel<T>, s: usize, e: usize, r: Relax, p: Seq<usize>, ks: Seq<int>)
    requires
        m.wf(),
        relax_inv(m, s, r),
        opt_inv(m, s, e, r, -1, 0),
        is_weighted_walk(m, p, ks),
        p[0] == s,
        !r.done.contains(p.last()),
    ensures
        r.queue.len() > 0,
        r.queue[min_pos(r.queue)].0 <= weight(m, p, ks),
{
    lemma_first_unrelaxed(m, s, e, r, p, ks, 0);
}

proof fn lemma_relax_edges_opt<T>(m: GraphModel<T>, s: usize, e: usize, edges: Seq<(usize, usize)>, u: usize, du: usize, r: Relax, k0: int)
    requires
        m.wf(),
        r.dist.len() == m.verts.len(),
        r.prev.len() == m.verts.len(),
        forall|j: int| 0 <= j < r.queue.len() ==> (#[trigger] r.queue[j]).1 < m.verts.len(),
        forall|v: int| 0 <= v < m.verts.len() && (#[trigger] r.prev[v]).is_some() ==> r.prev[v].unwrap() < m.verts.len(),
        opt_inv(m, s, e, r, u as int, k0),
        u < m.verts.len(),
        r.done.contains(u),
        r.dist[u as int] == du,
        !r.reached,
        forall|v: usize| #[trigger] r.done.contains(v) ==> r.dist[v as int] <= du,
        0 <= k0,
        k0 + edges.len() == m.adj[u as int].len(),
        forall|k: int| 0 <= k < edges.len() ==> #[trigger] edges[k] == m.adj[u as int][k0 + k],
    ensures
        opt_inv(m, s, e, relax_edges(edges, u, du, r), -1, 0),
    decreases edges.len(),
{
    let n = m.verts.len();
    if edges.len() == 0 {
        assert forall|v: usize, k: int|
            r.done.contains(v) && 0 <= k < m.adj[v as int].len() implies r.dist[(#[trigger] m.adj[v as int][k]).0 as int]
                <= sat_add(r.dist[v as int], m.adj[v as int][k].1) by {
            assert(!(v == u && k >= k0));
        }
    } else {
        let w = edges[0].0;
        let wt = edges[0].1;
        let c = sat_add(du, wt);
        assert(edges[0] == m.adj[u as int][k0 + 0]);
        assert(w < n);
        let r2 = if c < r.dist[w as int] {
            Relax {
                dist: r.dist.update(w as int, c),
                prev: r.prev.update(w as int, Some(u)),
                queue: r.queue.push((c, w)),
                ..r
            }
        } else {
            r
        };
        if c < r.dist[w as int] {
            assert(!r.done.contains(w));
            assert(w != u);
            assert(c == du + wt);
            assert forall|j: int| 0 <= j < r2.queue.len() implies (#[trigger] r2.queue[j]).0 >= r2.dist[r2.queue[j].1 as int] && r2.queue[j].1 < n by {
                if j < r.queue.len() {
                    assert(r2.queue[j] == r.queue[j]);
                    assert(r.queue[j].1 < n);
                }
            }
            assert forall|v: int| 0 <= v < n && (#[trigger] r2.prev[v]).is_some() implies r2.prev[v].unwrap() < n by {}
            assert forall|v: int| 0 <= v < n && !r2.done.contains(v as usize) implies r2.queue.contains((#[trigger] r2.dist[v], v as usize)) by {
                if v == w {
                    assert(r2.queue[r.queue.len() as int] == (c, w));
                } else {
                    let q = choose|q: int| 0 <= q < r.queue.len() && r.queue[q] == (r.dist[v], v as usize);
                    assert(r2.queue[q] == r.queue[q]);
                }
            }
            assert forall|v: usize, k: int|
                r2.done.contains(v) && 0 <= k < m.adj[v as int].len() && !(v == u && k >= k0 + 1) implies r2.dist[(#[trigger] m.adj[v as int][k]).0 as int]
                    <= sat_add(r2.dist[v as int], m.adj[v as int][k].1) by {
                assert(v != w);
                if !(v == u && k == k0) {
                    assert(r.dist[m.adj[v as int][k].0 as int] <= sat_add(r.dist[v as int], m.adj[v as int][k].1));
                }
            }
            assert forall|v: usize, j: int| #[trigger] r2.done.contains(v) && 0 <= j < r2.queue.len() implies r2.dist[v as int] <= (#[trigger] r2.queue[j]).0 by {
                assert(v != w);
                if j < r.queue.len() {
                    assert(r2.queue[j] == r.queue[j]);
                }
            }
            assert forall|v: int|
                0 <= v < n && (#[trigger] r2.prev[v]).is_some() implies exists|k: int|
                    0 <= k < m.adj[r2.prev[v].unwrap() as int].len() && (#[trigger] m.adj[r2.prev[v].unwrap() as int][k]).0 == v
                        && r2.dist[r2.prev[v].unwrap() as int] + m.adj[r2.prev[v].unwrap() as int][k].1 <= r2.dist[v] by {
                if v == w {
                    assert(m.adj[u as int][k0].0 == v);
                } else {
                    let y = r.prev[v].unwrap();
                    let k = choose|k: int|
                        0 <= k < m.adj[y as int].len() && (#[trigger] m.adj[y as int][k]).0 == v
                            && r.dist[y as int] + m.adj[y as int][k].1 <= r.dist[v];
                    assert(r2.prev[v] == r.prev[v]);
                    assert(r2.dist[y as int] <= r.dist[y as int]);
                    assert(m.adj[y as int][k].0 == v);
                }
            }
        } else {
            assert forall|v: usize, k: int|
                r2.done.contains(v) && 0 <= k < m.adj[v as int].len() && !(v == u && k >= k0 + 1) implies r2.dist[(#[trigger] m.adj[v as int][k]).0 as int]
                    <= sat_add(r2.dist[v as int], m.adj[v as int][k].1) by {
                if v == u && k == k0 {
                    assert(m.adj[v as int][k] == edges[0]);
                }
            }
        }
        assert forall|v: usize| #[trigger] r2.done.contains(v) implies r2.dist[v as int] <= du by {
            if c < r.dist[w as int] && v == w {
                assert(false);
            }
        }
        assert forall|k: int| 0 <= k < edges.drop_first().len() implies #[trigger] edges.drop_first()[k] == m.adj[u as int][(k0 + 1) + k] by {
            assert(edges.drop_first()[k] == edges[k + 1]);
        }
        lemma_relax_edges_opt(m, s, e, edges.drop_first(), u, du, r2, k0 + 1);
    }
}

/// Relaxing edges that are already relaxed changes nothing.
proof fn lemma_relax_edges_settled(edges: Seq<(usize, usize)>, u: usize, du: usize, r: Relax)
    requires
        forall|k: int| 0 <= k < edges.len() ==> r.dist[(#[trigger] edges[k]).0 as int] <= sat_add(du, edges[k].1),
    ensures
        relax_edges(edges, u, du, r) == r,
    decreases edges.len(),
{
    if edges.len() > 0 {
        assert(r.dist[edges[0].0 as int] <= sat_add(du, edges[0].1));
        assert forall|k: int| 0 <= k < edges.drop_first().len() implies r.dist[(#[trigger] edges.drop_first()[k]).0 as int] <= sat_add(du, edges.drop_first()[k].1) by {
            assert(edges.drop_first()[k] == edges[k + 1]);
        }
        lemma_relax_edges_settled(edges.drop_first(), u, du, r);
    }
}

/// Taking the first entry out of the queue and marking its vertex relaxed
/// keeps the invariant, with that vertex's edges still to relax.
proof fn lemma_pop_opt<T>(m: GraphModel<T>, s: usize, e: usize, r: Relax)
    requires
        m.wf(),
        relax_inv(m, s, r),
        opt_inv(m, s, e, r, -1, 0),
        !relax_done(r),
        r.queue[min_pos(r.queue)].1 != e,
    ensures
        ({
            let p = min_pos(r.queue);
            let u = r.queue[p].1;
            let r1 = Relax { queue: r.queue.remove(p), done: mark(r.done, u), ..r };
            &&& u < m.verts.len()
            &&& opt_inv(m, s, e, r1, if r.done.contains(u) { -1 } else { u as int }, 0)
            &&& forall|j: int| 0 <= j < r1.queue.len() ==> (#[trigger] r1.queue[j]).1 < m.verts.len()
            &&& !r.done.contains(u) ==> forall|v: usize| #[trigger] r1.done.contains(v) ==> r1.dist[v as int] <= r.dist[u as int]
        }),
{
    let n = m.verts.len();
    lemma_min_pos_least(r.queue);
    let p = min_pos(r.queue);
    let d = r.queue[p].0;
    let u = r.queue[p].1;
    assert(u < n);
    let q1 = r.queue.remove(p);
    let r1 = Relax { queue: q1, done: mark(r.done, u), ..r };
    lemma_mark(r.done, u);
    assert forall|j: int| 0 <= j < q1.len() implies #[trigger] q1[j] == r.queue[if j < p { j } else { j + 1 }] by {}
    assert forall|j: int| 0 <= j < r1.queue.len() implies (#[trigger] r1.queue[j]).0 >= r1.dist[r1.queue[j].1 as int] && r1.queue[j].1 < n by {
        assert(q1[j] == r.queue[if j < p { j } else { j + 1 }]);
    }
    assert forall|v: int| 0 <= v < n && !r1.done.contains(v as usize) implies r1.queue.contains((#[trigger] r1.dist[v], v as usize)) by {
        let q = choose|q: int| 0 <= q < r.queue.len() && r.queue[q] == (r.dist[v], v as usize);
        assert(q != p);
        if q < p {
            assert(q1[q] == r.queue[q]);
        } else {
            assert(q1[q - 1] == r.queue[q]);
        }
    }
    if !r.done.contains(u) {
        let q = choose|q: int| 0 <= q < r.queue.len() && r.queue[q] == (r.dist[u as int], u);
        assert(d <= r.queue[q].0);
        assert(d == r.dist[u as int]);
        assert forall|v: usize| #[trigger] r1.done.contains(v) implies r1.dist[v as int] <= r.dist[u as int] by {
            if v != u {
                assert(r.dist[v as int] <= r.queue[p].0);
            }
        }
    }
    assert forall|v: usize, j: int| #[trigger] r1.done.contains(v) && 0 <= j < r1.queue.len() implies r1.dist[v as int] <= (#[trigger] r1.queue[j]).0 by {
        assert(q1[j] == r.queue[if j < p { j } else { j + 1 }]);
        if v == u && !r.done.contains(u) {
            assert(r.queue[if j < p { j } else { j + 1 }].0 >= d);
        }
    }
}

pub proof fn lemma_relax_step_opt<T>(m: GraphModel<T>, s: usize, e: usize, r: Relax)
    requires
        m.wf(),
        relax_inv(m, s, r),
        opt_inv(m, s, e, r, -1, 0),
        !relax_done(r),
    ensures
        opt_inv(m, s, e, relax_step(m, r, e), -1, 0),
{
    lemma_min_pos_least(r.queue);
    let p = min_pos(r.queue);
    let u = r.queue[p].1;
    if u != e {
        lemma_pop_opt(m, s, e, r);
        let r1 = Relax { queue: r.queue.remove(p), done: mark(r.done, u), ..r };
        lemma_mark(r.done, u);
        if r.done.contains(u) {
            assert forall|k: int| 0 <= k < m.adj[u as int].len() implies r1.dist[(#[trigger] m.adj[u as int][k]).0 as int] <= sat_add(r.dist[u as int], m.adj[u as int][k].1) by {}
            lemma_relax_edges_settled(m.adj[u as int], u, r.dist[u as int], r1);
        } else {
            assert forall|k: int| 0 <= k < m.adj[u as int].len() implies #[trigger] m.adj[u as int][k] == m.adj[u as int][0 + k] by {}
            lemma_relax_edges_opt(m, s, e, m.adj[u as int], u, r.dist[u as int], r1, 0);
        }
    }
}

pub proof fn lemma_relax_run_opt<T>(m: GraphModel<T>, s: usize, e: usize, r: Relax, k: nat)
    requires
        m.wf(),
        relax_inv(m, s, r),
        opt_inv(m, s, e, r, -1, 0),
    ensures
        opt_inv(m, s, e, relax_run(m, r, e, k), -1, 0),
    decreases k,
{
    if k > 0 && !relax_done(r) {
        lemma_relax_step_opt(m, s, e, r);
        lemma_relax_run_inv(m, s, e, r, 1);
        assert(relax_run(m, r, e, 1) == relax_run(m, relax_step(m, r, e), e, 0));
        lemma_relax_run_opt(m, s, e, relax_step(m, r, e), (k - 1) as nat);
    }
}

/// Following predecessors back from `v` to a vertex without predecessor gives,
/// read forwards, a walk whose weight is at most the distance it gains.
pub proof fn lemma_trail_weight<T>(m: GraphModel<T>, s: usize, r: Relax, v: usize, fuel: nat)
    requires
        m.wf(),
        relax_inv(m, s, r),
        prev_accounts(m, r),
        v < m.verts.len(),
        r.dist[v as int] < usize::MAX,
    ensures
        exists|ks: Seq<int>|
            #![trigger is_weighted_walk(m, trail(r.prev, v, fuel).reverse(), ks)]
            is_weighted_walk(m, trail(r.prev, v, fuel).reverse(), ks) && weight(m, trail(r.prev, v, fuel).reverse(), ks)
                + r.dist[trail(r.prev, v, fuel).last() as int] <= r.dist[v as int],
    decreases fuel,
{
    let t = trail(r.prev, v, fuel);
    lemma_trail_walk(m, s, r, v, fuel);
    match r.prev[v as int] {
        Some(u) if fuel > 0 => {
            lemma_trail_weight(m, s, r, u, (fuel - 1) as nat);
            lemma_trail_walk(m, s, r, u, (fuel - 1) as nat);
            let t1 = trail(r.prev, u, (fuel - 1) as nat);
            let p1 = t1.reverse();
            let ks1 = choose|ks: Seq<int>|
                #![trigger is_weighted_walk(m, p1, ks)]
                is_weighted_walk(m, p1, ks) && weight(m, p1, ks) + r.dist[t1.last() as int] <= r.dist[u as int];
            let k = choose|k: int|
                0 <= k < m.adj[u as int].len() && (#[trigger] m.adj[u as int][k]).0 == v
                    && r.dist[u as int] + m.adj[u as int][k].1 <= r.dist[v as int];
            assert(t == seq![v] + t1);
            let p = t.reverse();
            assert(p =~= p1.push(v));
            assert(p1.last() == u) by {
                assert(p1[p1.len() - 1] == t1[0]);
            }
            let ks = ks1.push(k);
            assert(p.drop_last() =~= p1);
            assert(ks.drop_last() =~= ks1);
            assert(p[ks.len() - 1] == u);
            assert forall|i: int| 0 <= i < ks.len() implies 0 <= #[trigger] ks[i] < m.adj[p[i] as int].len() && m.adj[p[i] as int][ks[i]].0 == p[i + 1] by {
                if i < ks1.len() {
                    assert(ks[i] == ks1[i] && p[i] == p1[i] && p[i + 1] == p1[i + 1]);
                }
            }
            assert(is_weighted_walk(m, p, ks));
            assert(t.last() == t1.last());
        },
        _ => {
            assert(t == seq![v]);
            let p = t.reverse();
            assert(p =~= seq![v]);
            let ks = Seq::<int>::empty();
            assert(is_weighted_walk(m, p, ks));
        },
    }
}

/// The path the relaxation finds, when it finds one, is a lightest walk from
/// `s` to `e`.
pub proof fn lemma_found_is_lightest<T>(m: GraphModel<T>, s: usize, e: usize)
    requires
        m.wf(),
        s < m.verts.len(),
        e < m.verts.len(),
        exists|k: nat| relax_done(relax_run(m, relax_start(m, s), e, k)),
        shortest_path(m, s, e) is Some,
    ensures
        is_lightest(m, s, e, shortest_path(m, s, e).unwrap()),
{
    let k = choose|k: nat| relax_done(relax_run(m, relax_start(m, s), e, k));
    let r = relax_run(m, relax_start(m, s), e, k);
    assert(settled(m, s, e) == r);
    lemma_start_relax_inv(m, s);
    lemma_relax_run_inv(m, s, e, relax_start(m, s), k);
    lemma_start_opt_inv(m, s, e);
    lemma_relax_run_opt(m, s, e, relax_start(m, s), k);
    let n = m.verts.len();
    let t = trail(r.prev, e, n);
    let p = t.reverse();
    lemma_trail_walk(m, s, r, e, n);
    lemma_trail_weight(m, s, r, e, n);
    let ks = choose|ks: Seq<int>|
        #![trigger is_weighted_walk(m, p, ks)]
        is_weighted_walk(m, p, ks) && weight(m, p, ks) + r.dist[t.last() as int] <= r.dist[e as int];
    assert(t.last() == s);
    assert(p[0] == t.last());
    assert(p.last() == t[0]);
    lemma_min_pos_least(r.queue);
    assert forall|q: Seq<usize>, qs: Seq<int>|
        #![trigger is_weighted_walk(m, q, qs)]
        is_weighted_walk(m, q, qs) && q[0] == s && q.last() == e implies weight(m, p, ks) <= weight(m, q, qs) by {
        lemma_queue_lower_bound(m, s, e, r, q, qs);
        let top = r.queue[min_pos(r.queue)];
        assert(top.0 >= r.dist[top.1 as int]);
    }
}

/// Each predecessor link points to a relaxed vertex, relaxed before the vertex
/// itself when that one is relaxed too.
pub open spec fn prev_ordered<T>(m: GraphModel<T>, r: Relax) -> bool {
    &&& r.done.no_duplicates()
    &&& forall|v: int|
        0 <= v < m.verts.len() && (#[trigger] r.prev[v]).is_some() ==> r.done.contains(r.prev[v].unwrap())
            && forall|i: int, j: int|
            0 <= i < r.done.len() && 0 <= j < r.done.len() && #[trigger] r.done[i] == r.prev[v].unwrap()
                && #[trigger] r.done[j] == v as usize ==> i < j
}

proof fn lemma_relax_edges_ordered<T>(m: GraphModel<T>, edges: Seq<(usize, usize)>, u: usize, du: usize, r: Relax)
    requires
        m.wf(),
        r.dist.len() == m.verts.len(),
        r.prev.len() == m.verts.len(),
        forall|k: int| 0 <= k < edges.len() ==> (#[trigger] edges[k]).0 < m.verts.len(),
        prev_ordered(m, r),
        r.done.contains(u),
        forall|v: usize| #[trigger] r.done.contains(v) ==> v < m.verts.len() && r.dist[v as int] <= du,
    ensures
        prev_ordered(m, relax_edges(edges, u, du, r)),
        relax_edges(edges, u, du, r).done == r.done,
    decreases edges.len(),
{
    if edges.len() > 0 {
        let w = edges[0].0;
        let c = sat_add(du, edges[0].1);
        assert(w < m.verts.len());
        let r2 = if c < r.dist[w as int] {
            Relax {
                dist: r.dist.update(w as int, c),
                prev: r.prev.update(w as int, Some(u)),
                queue: r.queue.push((c, w)),
                ..r
            }
        } else {
            r
        };
        if c < r.dist[w as int] {
            assert(!r.done.contains(w));
            assert forall|v: int| 0 <= v < m.verts.len() && (#[trigger] r2.prev[v]).is_some() implies r2.done.contains(r2.prev[v].unwrap())
                && forall|i: int, j: int|
                0 <= i < r2.done.len() && 0 <= j < r2.done.len() && #[trigger] r2.done[i] == r2.prev[v].unwrap()
                    && #[trigger] r2.done[j] == v as usize ==> i < j by {
                if v == w {
                    assert forall|i: int, j: int|
                        0 <= i < r2.done.len() && 0 <= j < r2.done.len() && #[trigger] r2.done[i] == r2.prev[v].unwrap()
                            && #[trigger] r2.done[j] == v as usize implies i < j by {
                        assert(r.done.contains(w));
                    }
                }
            }
        }
        assert forall|v: usize| #[trigger] r2.done.contains(v) implies v < m.verts.len() && r2.dist[v as int] <= du by {
            if c < r.dist[w as int] && v == w {
                assert(false);
            }
        }
        assert forall|k: int| 0 <= k < edges.drop_first().len() implies (#[trigger] edges.drop_first()[k]).0 < m.verts.len() by {
            assert(edges.drop_first()[k] == edges[k + 1]);
        }
        lemma_relax_edges_ordered(m, edges.drop_first(), u, du, r2);
    }
}

pub proof fn lemma_relax_run_ordered<T>(m: GraphModel<T>, s: usize, e: usize, r: Relax, k: nat)
    requires
        m.wf(),
        relax_inv(m, s, r),
        opt_inv(m, s, e, r, -1, 0),
        prev_ordered(m, r),
    ensures
        prev_ordered(m, relax_run(m, r, e, k)),
    decreases k,
{
    if k > 0 && !relax_done(r) {
        lemma_min_pos_least(r.queue);
        let p = min_pos(r.queue);
        let u = r.queue[p].1;
        if u != e {
            lemma_pop_opt(m, s, e, r);
            let r1 = Relax { queue: r.queue.remove(p), done: mark(r.done, u), ..r };
            lemma_mark(r.done, u);
            if !r.done.contains(u) {
                let d1 = r.done.push(u);
                assert(r1.done == d1);
                assert forall|v: int| 0 <= v < m.verts.len() && (#[trigger] r1.prev[v]).is_some() implies r1.done.contains(r1.prev[v].unwrap())
                    && forall|i: int, j: int|
                    0 <= i < r1.done.len() && 0 <= j < r1.done.len() && #[trigger] r1.done[i] == r1.prev[v].unwrap()
                        && #[trigger] r1.done[j] == v as usize ==> i < j by {
                    let x = r.prev[v].unwrap();
                    assert(r.done.contains(x));
                    assert forall|i: int, j: int|
                        0 <= i < r1.done.len() && 0 <= j < r1.done.len() && #[trigger] r1.done[i] == r1.prev[v].unwrap()
                            && #[trigger] r1.done[j] == v as usize implies i < j by {
                        if i == r.done.len() {
                            assert(x == u);
                        } else if j < r.done.len() {
                            assert(r1.done[i] == r.done[i] && r1.done[j] == r.done[j]);
                        }
                    }
                }
            }
            assert forall|k2: int| 0 <= k2 < m.adj[u as int].len() implies (#[trigger] m.adj[u as int][k2]).0 < m.verts.len() by {}
            if !r.done.contains(u) {
                lemma_relax_edges_ordered(m, m.adj[u as int], u, r.dist[u as int], r1);
            } else {
                assert forall|k2: int| 0 <= k2 < m.adj[u as int].len() implies r1.dist[(#[trigger] m.adj[u as int][k2]).0 as int] <= sat_add(r.dist[u as int], m.adj[u as int][k2].1) by {}
                lemma_relax_edges_settled(m.adj[u as int], u, r.dist[u as int], r1);
            }
        }
        lemma_relax_step_opt(m, s, e, r);
        lemma_relax_run_inv(m, s, e, r, 1);
        assert(relax_run(m, r, e, 1) == relax_run(m, relax_step(m, r, e), e, 0));
        lemma_relax_run_ordered(m, s, e, relax_step(m, r, e), (k - 1) as nat);
    }
}

/// The position of `v` in `done`.
pub open spec fn pos(done: Seq<usize>, v: usize) -> int {
    choose|i: int| 0 <= i < done.len() && done[i] == v
}

/// Following predecessors ends at a vertex without one within as many links
/// as there are vertices relaxed before the start.
pub proof fn lemma_trail_ends<T>(m: GraphModel<T>, r: Relax, v: usize, fuel: nat)
    requires
        m.wf(),
        r.prev.len() == m.verts.len(),
        prev_ordered(m, r),
        forall|x: int| 0 <= x < m.verts.len() && (#[trigger] r.prev[x]).is_some() ==> r.prev[x].unwrap() < m.verts.len(),
        v < m.verts.len(),
        fuel >= if r.done.contains(v) { pos(r.done, v) } else { r.done.len() as int },
    ensures
        r.prev[trail(r.prev, v, fuel).last() as int] is None,
    decreases fuel,
{
    match r.prev[v as int] {
        Some(u) => {
            assert(r.done.contains(u));
            let iu = pos(r.done, u);
            assert(0 <= iu < r.done.len() && r.done[iu] == u);
            if r.done.contains(v) {
                let iv = pos(r.done, v);
                assert(0 <= iv < r.done.len() && r.done[iv] == v);
                assert(iu < iv);
            }
            assert(fuel > 0);
            lemma_trail_ends(m, r, u, (fuel - 1) as nat);
            assert(trail(r.prev, v, fuel) == seq![v] + trail(r.prev, u, (fuel - 1) as nat));
        },
        None => {},
    }
}

/// Distinct values below `n` are at most `n` many.
pub proof fn lemma_distinct_below(q: Seq<usize>, n: nat)
    requires
        q.no_duplicates(),
        n <= usize::MAX,
        forall|i: int| 0 <= i < q.len() ==> (#[trigger] q[i]) < n,
    ensures
        q.len() <= n,
{
    let below = Set::new(|x: usize| x < n);
    lemma_below_len(n);
    q.unique_seq_to_set();
    assert(q.to_set().subset_of(below)) by {
        assert forall|x: usize| q.to_set().contains(x) implies below.contains(x) by {
            assert(q.contains(x));
        }
    }
    vstd::set_lib::lemma_len_subset(q.to_set(), below);
}

proof fn lemma_below_len(n: nat)
    requires
        n <= usize::MAX,
    ensures
        Set::new(|x: usize| x < n).finite(),
        Set::new(|x: usize| x < n).len() == n,
    decreases n,
{
    if n == 0 {
        assert(Set::new(|x: usize| x < n) =~= Set::<usize>::empty());
    } else {
        lemma_below_len((n - 1) as nat);
        assert(Set::new(|x: usize| x < n) =~= Set::new(|x: usize| x < (n - 1) as nat).insert((n - 1) as usize));
    }
}

/// Some walk leads from `s` to `e` with a weight below `usize::MAX`.
pub open spec fn within_reach<T>(m: GraphModel<T>, s: usize, e: usize) -> bool {
    exists|q: Seq<usize>, qs: Seq<int>|
        #![trigger is_weighted_walk(m, q, qs)]
        is_weighted_walk(m, q, qs) && q[0] == s && q.last() == e && weight(m, q, qs) < usize::MAX
}

/// The relaxation finds a path exactly when some walk from `s` to `e` weighs
/// less than `usize::MAX`.
pub proof fn lemma_found_iff_within_reach<T>(m: GraphModel<T>, s: usize, e: usize)
    requires
        m.wf(),
        s < m.verts.len(),
        e < m.verts.len(),
        exists|k: nat| relax_done(relax_run(m, relax_start(m, s), e, k)),
    ensures
        shortest_path(m, s, e) is Some <==> within_reach(m, s, e),
{
    let n = m.verts.len();
    let k = choose|k: nat| relax_done(relax_run(m, relax_start(m, s), e, k));
    let r = relax_run(m, relax_start(m, s), e, k);
    assert(settled(m, s, e) == r);
    lemma_start_relax_inv(m, s);
    lemma_relax_run_inv(m, s, e, relax_start(m, s), k);
    lemma_start_opt_inv(m, s, e);
    lemma_relax_run_opt(m, s, e, relax_start(m, s), k);
    lemma_relax_run_ordered(m, s, e, relax_start(m, s), k);
    let t = trail(r.prev, e, n);
    if shortest_path(m, s, e) is Some {
        lemma_trail_walk(m, s, r, e, n);
        lemma_trail_weight(m, s, r, e, n);
        let p = t.reverse();
        let ks = choose|ks: Seq<int>|
            #![trigger is_weighted_walk(m, p, ks)]
            is_weighted_walk(m, p, ks) && weight(m, p, ks) + r.dist[t.last() as int] <= r.dist[e as int];
        assert(p[0] == t.last());
        assert(p.last() == t[0]);
        assert(is_weighted_walk(m, p, ks) && p[0] == s && p.last() == e && weight(m, p, ks) < usize::MAX);
    }
    if within_reach(m, s, e) {
        let (q, qs) = choose|q: Seq<usize>, qs: Seq<int>|
            #![trigger is_weighted_walk(m, q, qs)]
            is_weighted_walk(m, q, qs) && q[0] == s && q.last() == e && weight(m, q, qs) < usize::MAX;
        assert(r.queue.contains((r.dist[e as int], e)));
        assert(r.reached);
        lemma_queue_lower_bound(m, s, e, r, q, qs);
        let top = r.queue[min_pos(r.queue)];
        lemma_min_pos_least(r.queue);
        assert(top.0 >= r.dist[top.1 as int]);
        assert(r.dist[e as int] < usize::MAX);
        assert forall|i: int| 0 <= i < r.done.len() implies (#[trigger] r.done[i]) < n by {
            assert(r.done.contains(r.done[i]));
        }
        lemma_distinct_below(r.done, n as nat);
        lemma_trail_ends(m, r, e, n);
    }
}

} // verus!
