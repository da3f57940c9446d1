//! Frontier traversals described as state machines over vertex positions.
use crate::graph::GraphModel;
use vstd::prelude::*;

verus! {

/// The state of a frontier traversal: the pending vertices, which vertices
/// have been discovered, and the vertices emitted so far.
pub struct Walker {
    pub frontier: Seq<usize>,
    pub visited: Seq<bool>,
    pub out: Seq<usize>,
}

/// How many entries of `s` are `true`.
pub open spec fn count_true(s: Seq<bool>) -> nat
    decreases s.len(),
{
    if s.len() == 0 {
        0
    } else {
        count_true(s.drop_last()) + if s.last() {
            1nat
        } else {
            0nat
        }
    }
}

/// Goes through `edges` in order; each target not yet visited is marked and
/// appended to the frontier.
pub open spec fn scan(edges: Seq<(usize, usize)>, visited: Seq<bool>, frontier: Seq<usize>) -> (
    Seq<bool>,
    Seq<usize>,
)
    decreases edges.len(),
{
    if edges.len() == 0 {
        (visited, frontier)
    } else {
        let w = edges[0].0;
        if visited[w as int] {
            scan(edges.drop_first(), visited, frontier)
        } else {
            scan(edges.drop_first(), visited.update(w as int, true), frontier.push(w))
        }
    }
}

/// The traversal's start: only `s` is discovered and pending.
pub open spec fn start<T>(m: GraphModel<T>, s: usize) -> Walker {
    Walker {
        frontier: seq![s],
        visited: Seq::new(m.verts.len(), |j: int| j == s),
        out: Seq::empty(),
    }
}

/// The vertex taken next: the last pending one for a stack, the first for a queue.
pub open spec fn next_vertex(w: Walker, lifo: bool) -> usize {
    if lifo {
        w.frontier.last()
    } else {
        w.frontier[0]
    }
}

pub open spec fn rest(w: Walker, lifo: bool) -> Seq<usize> {
    if lifo {
        w.frontier.drop_last()
    } else {
        w.frontier.drop_first()
    }
}

/// One round: take the next vertex, emit it, and scan its edges.
pub open spec fn step<T>(m: GraphModel<T>, w: Walker, lifo: bool) -> Walker {
    let v = next_vertex(w, lifo);
    let r = scan(m.adj[v as int], w.visited, rest(w, lifo));
    Walker { frontier: r.1, visited: r.0, out: w.out.push(v) }
}

/// At most `k` rounds, stopping early when nothing is pending.
pub open spec fn run<T>(m: GraphModel<T>, w: Walker, k: nat, lifo: bool) -> Walker
    decreases k,
{
    if k == 0 || w.frontier.len() == 0 {
        w
    } else {
        run(m, step(m, w, lifo), (k - 1) as nat, lifo)
    }
}

/// The vertices a traversal from position `s` emits, in order, once nothing is
/// pending: with a stack (`lifo`) this is the depth-first order, with a queue
/// the breadth-first one.
pub open spec fn order<T>(m: GraphModel<T>, s: usize, lifo: bool) -> Seq<usize> {
    let k = choose|k: nat| run(m, start(m, s), k, lifo).frontier.len() == 0;
    run(m, start(m, s), k, lifo).out
}

pub proof fn lemma_count_true_le(s: Seq<bool>)
    ensures
        count_true(s) <= s.len(),
    decreases s.len(),
{
    if s.len() > 0 {
        lemma_count_true_le(s.drop_last());
    }
}

pub proof fn lemma_count_true_mark(s: Seq<bool>, i: int)
    requires
        0 <= i < s.len(),
        !s[i],
    ensures
        count_true(s.update(i, true)) == count_true(s) + 1,
    decreases s.len(),
{
    let t = s.update(i, true);
    if i == s.len() - 1 {
        assert(t.drop_last() =~= s.drop_last());
    } else {
        assert(t.drop_last() =~= s.drop_last().update(i, true));
        lemma_count_true_mark(s.drop_last(), i);
    }
}

pub proof fn lemma_run_add<T>(m: GraphModel<T>, w: Walker, a: nat, b: nat, lifo: bool)
    ensures
        run(m, w, a + b, lifo) == run(m, run(m, w, a, lifo), b, lifo),
    decreases a,
{
    if a > 0 && w.frontier.len() > 0 {
        lemma_run_add(m, step(m, w, lifo), (a - 1) as nat, b, lifo);
        assert((a + b - 1) as nat == ((a - 1) as nat + b) as nat);
    } else if a == 0 {
    } else {
        lemma_run_done(m, w, b, lifo);
        lemma_run_done(m, w, a + b, lifo);
    }
}

pub proof fn lemma_run_done<T>(m: GraphModel<T>, w: Walker, k: nat, lifo: bool)
    requires
        w.frontier.len() == 0,
    ensures
        run(m, w, k, lifo) == w,
{
}

pub proof fn lemma_scan_counts(edges: Seq<(usize, usize)>, visited: Seq<bool>, frontier: Seq<usize>)
    requires
        forall|k: int| 0 <= k < edges.len() ==> (#[trigger] edges[k]).0 < visited.len(),
    ensures
        scan(edges, visited, frontier).0.len() == visited.len(),
        scan(edges, visited, frontier).1.len() >= frontier.len(),
        count_true(scan(edges, visited, frontier).0) == count_true(visited) + scan(
            edges,
            visited,
            frontier,
        ).1.len() - frontier.len(),
    decreases edges.len(),
{
    if edges.len() > 0 {
        let w = edges[0].0;
        assert(edges[0].0 < visited.len());
        assert forall|k: int| 0 <= k < edges.drop_first().len() implies (
        #[trigger] edges.drop_first()[k]).0 < visited.len() by {
            assert(edges.drop_first()[k] == edges[k + 1]);
        }
        if visited[w as int] {
            lemma_scan_counts(edges.drop_first(), visited, frontier);
        } else {
            lemma_count_true_mark(visited, w as int);
            lemma_scan_counts(edges.drop_first(), visited.update(w as int, true), frontier.push(w));
        }
    }
}

/// What a scan adds: the targets not yet visited, each once, in edge order.
pub proof fn lemma_scan_marks(edges: Seq<(usize, usize)>, visited: Seq<bool>, frontier: Seq<usize>)
    requires
        visited.len() <= usize::MAX,
        forall|k: int| 0 <= k < edges.len() ==> (#[trigger] edges[k]).0 < visited.len(),
    ensures
        ({
            let r = scan(edges, visited, frontier);
            let vis = r.0;
            let fr = r.1;
            let added = fr.subrange(frontier.len() as int, fr.len() as int);
            &&& vis.len() == visited.len()
            &&& fr.len() >= frontier.len()
            &&& fr.subrange(0, frontier.len() as int) == frontier
            &&& added.no_duplicates()
            &&& forall|j: int| 0 <= j < added.len() ==> #[trigger] added[j] < visited.len() && !visited[added[j] as int]
            &&& forall|x: int| 0 <= x < visited.len() ==> ((#[trigger] vis[x]) <==> (visited[x] || added.contains(x as usize)))
            &&& forall|k: int| 0 <= k < edges.len() ==> vis[(#[trigger] edges[k]).0 as int]
        }),
    decreases edges.len(),
{
    let r = scan(edges, visited, frontier);
    let vis = r.0;
    let fr = r.1;
    let added = fr.subrange(frontier.len() as int, fr.len() as int);
    if edges.len() == 0 {
        assert(fr.subrange(0, frontier.len() as int) =~= frontier);
        assert(added =~= Seq::<usize>::empty());
    } else {
        let w = edges[0].0;
        let tail = edges.drop_first();
        assert(edges[0].0 < visited.len());
        assert forall|k: int| 0 <= k < tail.len() implies (#[trigger] tail[k]).0 < visited.len() by {
            assert(tail[k] == edges[k + 1]);
        }
        if visited[w as int] {
            lemma_scan_marks(tail, visited, frontier);
            assert forall|k: int| 0 <= k < edges.len() implies vis[(#[trigger] edges[k]).0 as int] by {
                if k > 0 {
                    assert(edges[k] == tail[k - 1]);
                }
            }
        } else {
            let v1 = visited.update(w as int, true);
            let f1 = frontier.push(w);
            lemma_scan_marks(tail, v1, f1);
            assert(scan(edges, visited, frontier) == scan(tail, v1, f1));
            let added1 = fr.subrange(f1.len() as int, fr.len() as int);
            assert(fr.subrange(0, f1.len() as int) == f1);
            assert(fr.subrange(0, frontier.len() as int) =~= f1.subrange(0, frontier.len() as int));
            assert(f1.subrange(0, frontier.len() as int) =~= frontier);
            assert(fr[frontier.len() as int] == fr.subrange(0, f1.len() as int)[frontier.len() as int]);
            assert(added =~= seq![w] + added1);
            assert forall|j: int| 0 <= j < added.len() implies #[trigger] added[j] < visited.len() && !visited[added[j] as int] by {
                if j > 0 {
                    assert(added[j] == added1[j - 1]);
                    assert(!v1[added1[j - 1] as int]);
                }
            }
            assert(added.no_duplicates()) by {
                assert forall|a: int, b: int| 0 <= a < b < added.len() implies added[a] != added[b] by {
                    assert(added[b] == added1[b - 1]);
                    if a > 0 {
                        assert(added[a] == added1[a - 1]);
                    } else {
                        assert(!v1[added1[b - 1] as int]);
                    }
                }
            }
            assert forall|x: int| 0 <= x < visited.len() implies ((#[trigger] vis[x]) <==> (visited[x] || added.contains(x as usize))) by {
                assert(vis[x] <==> (v1[x] || added1.contains(x as usize)));
                if added1.contains(x as usize) {
                    let j = choose|j: int| 0 <= j < added1.len() && added1[j] == x as usize;
                    assert(added[j + 1] == x as usize);
                }
                if added.contains(x as usize) {
                    let j = choose|j: int| 0 <= j < added.len() && added[j] == x as usize;
                    if j > 0 {
                        assert(added1[j - 1] == x as usize);
                    }
                }
                if x == w {
                    assert(added[0] == w);
                    assert(added.contains(x as usize));
                    assert(v1[x]);
                } else {
                    assert(v1[x] == visited[x]);
                    if added1.contains(x as usize) {
                        let j = choose|j: int| 0 <= j < added1.len() && added1[j] == x as usize;
                        assert(added[j + 1] == x as usize);
                        assert(added.contains(x as usize));
                    }
                    if added.contains(x as usize) {
                        let j = choose|j: int| 0 <= j < added.len() && added[j] == x as usize;
                        assert(added[0] == w);
                        assert(j != 0);
                        assert(added1[j - 1] == x as usize);
                        assert(added1.contains(x as usize));
                    }
                }
            }
            assert forall|k: int| 0 <= k < edges.len() implies vis[(#[trigger] edges[k]).0 as int] by {
                if k > 0 {
                    assert(edges[k] == tail[k - 1]);
                }
            }
        }
    }
}

/// Once a run of `k` rounds has emptied the frontier, that run's output is the
/// traversal's order.
pub proof fn lemma_order_is<T>(m: GraphModel<T>, s: usize, k: nat, lifo: bool)
    requires
        run(m, start(m, s), k, lifo).frontier.len() == 0,
    ensures
        order(m, s, lifo) == run(m, start(m, s), k, lifo).out,
{
    let w = start(m, s);
    let j = choose|j: nat| run(m, w, j, lifo).frontier.len() == 0;
    if j <= k {
        lemma_run_add(m, w, j, (k - j) as nat, lifo);
        lemma_run_done(m, run(m, w, j, lifo), (k - j) as nat, lifo);
        assert(k == j + (k - j) as nat);
    } else {
        lemma_run_add(m, w, k, (j - k) as nat, lifo);
        lemma_run_done(m, run(m, w, k, lifo), (j - k) as nat, lifo);
        assert(j == k + (j - k) as nat);
    }
}

/// The state of a depth-first descent with an explicit call stack: each frame
/// holds a vertex and the position of its next edge to try.
pub struct Descent {
    pub frames: Seq<(usize, usize)>,
    pub visited: Seq<bool>,
    pub out: Seq<usize>,
}

/// The descent's start: `s` is marked, emitted and on the stack.
pub open spec fn descent_start<T>(m: GraphModel<T>, s: usize) -> Descent {
    Descent {
        frames: seq![(s, 0usize)],
        visited: Seq::new(m.verts.len(), |j: int| j == s),
        out: seq![s],
    }
}

/// One move: the top frame returns when its edges are used up; else it tries
/// its next edge and, when that edge leads to an unmarked vertex, descends into
/// it (marking and emitting it).
pub open spec fn descent_step<T>(m: GraphModel<T>, d: Descent) -> Descent {
    let top = d.frames.last();
    let v = top.0;
    let k = top.1;
    if k >= m.adj[v as int].len() {
        Descent { frames: d.frames.drop_last(), ..d }
    } else {
        let w = m.adj[v as int][k as int].0;
        let f = d.frames.update(d.frames.len() - 1, (v, (k + 1) as usize));
        if d.visited[w as int] {
            Descent { frames: f, ..d }
        } else {
            Descent { frames: f.push((w, 0usize)), visited: d.visited.update(w as int, true), out: d.out.push(w) }
        }
    }
}

pub open spec fn descent_run<T>(m: GraphModel<T>, d: Descent, k: nat) -> Descent
    decreases k,
{
    if k == 0 || d.frames.len() == 0 {
        d
    } else {
        descent_run(m, descent_step(m, d), (k - 1) as nat)
    }
}

/// The vertices the recursive depth-first descent from `s` emits, in order: a
/// vertex is emitted when first reached, and its neighbours are descended
/// into in edge order.
pub open spec fn descent_order<T>(m: GraphModel<T>, s: usize) -> Seq<usize> {
    let k = choose|k: nat| descent_run(m, descent_start(m, s), k).frames.len() == 0;
    descent_run(m, descent_start(m, s), k).out
}

/// The moves left to the frames on the stack, at most: for each, its unused
/// edges and its return.
pub open spec fn pending<T>(m: GraphModel<T>, frames: Seq<(usize, usize)>) -> int
    decreases frames.len(),
{
    if frames.len() == 0 {
        0
    } else {
        pending(m, frames.drop_last()) + m.adj[frames.last().0 as int].len() - frames.last().1 + 1
    }
}

pub proof fn lemma_pending_nonneg<T>(m: GraphModel<T>, frames: Seq<(usize, usize)>)
    requires
        forall|j: int| 0 <= j < frames.len() ==> (#[trigger] frames[j]).1 <= m.adj[frames[j].0 as int].len(),
    ensures
        pending(m, frames) >= 0,
    decreases frames.len(),
{
    if frames.len() > 0 {
        assert(frames.last() == frames[frames.len() - 1]);
        lemma_pending_nonneg(m, frames.drop_last());
    }
}

pub proof fn lemma_descent_run_add<T>(m: GraphModel<T>, d: Descent, a: nat, b: nat)
    ensures
        descent_run(m, d, a + b) == descent_run(m, descent_run(m, d, a), b),
    decreases a,
{
    if a > 0 && d.frames.len() > 0 {
        lemma_descent_run_add(m, descent_step(m, d), (a - 1) as nat, b);
        assert((a + b - 1) as nat == ((a - 1) as nat + b) as nat);
    }
}

pub proof fn lemma_descent_order_is<T>(m: GraphModel<T>, s: usize, k: nat)
    requires
        descent_run(m, descent_start(m, s), k).frames.len() == 0,
    ensures
        descent_order(m, s) == descent_run(m, descent_start(m, s), k).out,
{
    let d = descent_start(m, s);
    let j = choose|j: nat| descent_run(m, d, j).frames.len() == 0;
    if j <= k {
        lemma_descent_run_add(m, d, j, (k - j) as nat);
        assert(k == j + (k - j) as nat);
    } else {
        lemma_descent_run_add(m, d, k, (j - k) as nat);
        assert(j == k + (j - k) as nat);
    }
}

/// What holds in every state of a frontier traversal from `s`: the discovered
/// vertices are those emitted or pending, none of them twice, and every
/// neighbour of an emitted vertex has been discovered.
pub open spec fn walk_inv<T>(m: GraphModel<T>, s: usize, w: Walker) -> bool {
    let n = m.verts.len();
    &&& w.visited.len() == n
    &&& s < n
    &&& w.visited[s as int]
    &&& forall|k: int| 0 <= k < w.frontier.len() ==> #[trigger] w.frontier[k] < n
    &&& forall|k: int| 0 <= k < w.out.len() ==> #[trigger] w.out[k] < n
    &&& forall|x: int|
        0 <= x < n ==> ((#[trigger] w.visited[x]) <==> (w.out.contains(x as usize) || w.frontier.contains(
            x as usize,
        )))
    &&& w.out.no_duplicates()
    &&& w.frontier.no_duplicates()
    &&& forall|a: int, b: int| 0 <= a < w.out.len() && 0 <= b < w.frontier.len() ==> w.out[a] != w.frontier[b]
    &&& forall|i: int, k: int|
        0 <= i < w.out.len() && 0 <= k < m.adj[w.out[i] as int].len() ==> w.visited[(#[trigger] m.adj[w.out[i] as int][k]).0 as int]
}

pub proof fn lemma_start_inv<T>(m: GraphModel<T>, s: usize)
    requires
        m.wf(),
        s < m.verts.len(),
    ensures
        walk_inv(m, s, start(m, s)),
{
    let w = start(m, s);
    assert forall|x: int| 0 <= x < m.verts.len() implies ((#[trigger] w.visited[x]) <==> (w.out.contains(x as usize) || w.frontier.contains(x as usize))) by {
        if x == s {
            assert(w.frontier[0] == s);
        }
        if w.frontier.contains(x as usize) {
            let j = choose|j: int| 0 <= j < w.frontier.len() && w.frontier[j] == x as usize;
            assert(j == 0);
        }
    }
}

pub proof fn lemma_step_inv<T>(m: GraphModel<T>, s: usize, w: Walker, lifo: bool)
    requires
        m.wf(),
        walk_inv(m, s, w),
        w.frontier.len() > 0,
    ensures
        walk_inv(m, s, step(m, w, lifo)),
{
    let n = m.verts.len();
    let v = next_vertex(w, lifo);
    let r = rest(w, lifo);
    let f = w.frontier;
    // the frontier is the taken vertex and the rest
    assert(v == f[if lifo { f.len() - 1 } else { 0 }]);
    assert forall|q: int| 0 <= q < r.len() implies #[trigger] r[q] == f[if lifo { q } else { q + 1 }] by {}
    assert forall|x: usize| f.contains(x) <==> (x == v || r.contains(x)) by {
        if f.contains(x) {
            let j = choose|j: int| 0 <= j < f.len() && f[j] == x;
            if x != v {
                if lifo {
                    assert(r[j] == x);
                } else {
                    assert(r[j - 1] == x);
                }
            }
        }
        if r.contains(x) {
            let j = choose|j: int| 0 <= j < r.len() && r[j] == x;
            assert(f[if lifo { j } else { j + 1 }] == x);
        }
    }
    assert(r.no_duplicates()) by {
        assert forall|a: int, b: int| 0 <= a < b < r.len() implies r[a] != r[b] by {
            assert(r[a] == f[if lifo { a } else { a + 1 }]);
            assert(r[b] == f[if lifo { b } else { b + 1 }]);
        }
    }
    assert(!r.contains(v)) by {
        if r.contains(v) {
            let j = choose|j: int| 0 <= j < r.len() && r[j] == v;
            assert(r[j] == f[if lifo { j } else { j + 1 }]);
        }
    }
    let edges = m.adj[v as int];
    assert forall|k: int| 0 <= k < edges.len() implies (#[trigger] edges[k]).0 < w.visited.len() by {
        assert(m.adj[v as int][k] == edges[k]);
    }
    lemma_scan_marks(edges, w.visited, r);
    let res = scan(edges, w.visited, r);
    let vis = res.0;
    let fr = res.1;
    let added = fr.subrange(r.len() as int, fr.len() as int);
    assert(fr =~= r + added) by {
        assert(fr.subrange(0, r.len() as int) == r);
        assert forall|q: int| 0 <= q < r.len() implies fr[q] == r[q] by {
            assert(fr.subrange(0, r.len() as int)[q] == fr[q]);
        }
    }
    let out = w.out.push(v);
    let w2 = step(m, w, lifo);
    assert(w2.frontier == fr && w2.visited == vis && w2.out == out);
    // every added vertex was undiscovered, so neither emitted nor pending
    assert forall|j: int| 0 <= j < added.len() implies !w.out.contains(#[trigger] added[j]) && !f.contains(added[j]) by {
        assert(!w.visited[added[j] as int]);
    }
    assert forall|k: int| 0 <= k < fr.len() implies #[trigger] fr[k] < n by {
        if k >= r.len() {
            assert(fr[k] == added[k - r.len()]);
        } else {
            assert(fr[k] == r[k]);
            assert(f.contains(r[k]));
        }
    }
    assert forall|k: int| 0 <= k < out.len() implies #[trigger] out[k] < n by {
        if k < w.out.len() {
            assert(out[k] == w.out[k]);
        }
    }
    assert forall|x: int| 0 <= x < n implies ((#[trigger] vis[x]) <==> (out.contains(x as usize) || fr.contains(x as usize))) by {
        assert(w.visited[x] <==> (w.out.contains(x as usize) || f.contains(x as usize)));
        assert(out.contains(x as usize) <==> (w.out.contains(x as usize) || x as usize == v)) by {
            if out.contains(x as usize) {
                let j = choose|j: int| 0 <= j < out.len() && out[j] == x as usize;
                if j < w.out.len() {
                    assert(w.out[j] == x as usize);
                }
            }
            if w.out.contains(x as usize) {
                let j = choose|j: int| 0 <= j < w.out.len() && w.out[j] == x as usize;
                assert(out[j] == x as usize);
            }
            if x as usize == v {
                assert(out[w.out.len() as int] == v);
            }
        }
        assert(fr.contains(x as usize) <==> (r.contains(x as usize) || added.contains(x as usize))) by {
            if fr.contains(x as usize) {
                let j = choose|j: int| 0 <= j < fr.len() && fr[j] == x as usize;
                if j < r.len() {
                    assert(r[j] == x as usize);
                } else {
                    assert(added[j - r.len()] == x as usize);
                }
            }
            if r.contains(x as usize) {
                let j = choose|j: int| 0 <= j < r.len() && r[j] == x as usize;
                assert(fr[j] == x as usize);
            }
            if added.contains(x as usize) {
                let j = choose|j: int| 0 <= j < added.len() && added[j] == x as usize;
                assert(fr[j + r.len()] == x as usize);
            }
        }
        if x as usize == v {
            assert(f.contains(v)) by {
                assert(f[if lifo { f.len() - 1 } else { 0 }] == v);
            }
        }
    }
    assert(out.no_duplicates()) by {
        assert forall|a: int, b: int| 0 <= a < b < out.len() implies out[a] != out[b] by {
            if b == w.out.len() {
                assert(f.contains(v)) by {
                    assert(f[if lifo { f.len() - 1 } else { 0 }] == v);
                }
                let j = choose|j: int| 0 <= j < f.len() && f[j] == v;
                assert(w.out[a] != f[j]);
            }
        }
    }
    assert(fr.no_duplicates()) by {
        assert forall|a: int, b: int| 0 <= a < b < fr.len() implies fr[a] != fr[b] by {
            if b >= r.len() {
                assert(fr[b] == added[b - r.len()]);
                if a >= r.len() {
                    assert(fr[a] == added[a - r.len()]);
                } else {
                    assert(fr[a] == r[a]);
                    assert(f.contains(r[a]));
                }
            } else {
                assert(fr[a] == r[a] && fr[b] == r[b]);
            }
        }
    }
    assert forall|a: int, b: int| 0 <= a < out.len() && 0 <= b < fr.len() implies out[a] != fr[b] by {
        if b >= r.len() {
            assert(fr[b] == added[b - r.len()]);
            if a < w.out.len() {
                assert(w.out.contains(out[a]));
            } else {
                assert(f.contains(v)) by {
                    assert(f[if lifo { f.len() - 1 } else { 0 }] == v);
                }
            }
        } else {
            assert(fr[b] == r[b]);
            assert(f.contains(r[b]));
            let j = choose|j: int| 0 <= j < f.len() && f[j] == r[b];
            if a < w.out.len() {
                assert(w.out[a] != f[j]);
            } else {
                assert(r.contains(r[b]));
            }
        }
    }
    assert forall|i: int, k: int| 0 <= i < out.len() && 0 <= k < m.adj[out[i] as int].len() implies vis[(#[trigger] m.adj[out[i] as int][k]).0 as int] by {
        if i < w.out.len() {
            assert(out[i] == w.out[i]);
            let t = m.adj[w.out[i] as int][k].0;
            assert(w.visited[t as int]);
            assert(t < n);
        } else {
            assert(out[i] == v);
            assert(edges[k] == m.adj[v as int][k]);
        }
    }
    assert(vis[s as int]) by {
        assert(w.visited[s as int]);
    }
}

pub proof fn lemma_run_inv<T>(m: GraphModel<T>, s: usize, w: Walker, k: nat, lifo: bool)
    requires
        m.wf(),
        walk_inv(m, s, w),
    ensures
        walk_inv(m, s, run(m, w, k, lifo)),
    decreases k,
{
    if k > 0 && w.frontier.len() > 0 {
        lemma_step_inv(m, s, w, lifo);
        lemma_run_inv(m, s, step(m, w, lifo), (k - 1) as nat, lifo);
    }
}

/// Once nothing is pending, every vertex of a walk from `s` has been emitted.
pub proof fn lemma_walk_emitted<T>(m: GraphModel<T>, s: usize, w: Walker, p: Seq<usize>, i: int)
    requires
        m.wf(),
        walk_inv(m, s, w),
        w.frontier.len() == 0,
        m.is_walk(p),
        p[0] == s,
        0 <= i < p.len(),
    ensures
        w.out.contains(p[i]),
    decreases i,
{
    if i > 0 {
        lemma_walk_emitted(m, s, w, p, i - 1);
        let u = p[i - 1];
        assert(m.is_edge(p[i - 1] as int, p[(i - 1) + 1] as int));
        assert(m.is_edge(u as int, p[i] as int));
        let k = choose|k: int| 0 <= k < m.adj[u as int].len() && m.adj[u as int][k].0 == p[i];
        let j = choose|j: int| 0 <= j < w.out.len() && w.out[j] == u;
        assert(w.visited[m.adj[w.out[j] as int][k].0 as int]);
        assert(w.visited[p[i] as int]);
        assert(!w.frontier.contains(p[i]));
    } else {
        assert(w.visited[s as int]);
        assert(!w.frontier.contains(s));
    }
}

/// A traversal that ends emits no vertex twice, and every vertex that a walk
/// from its start reaches.
pub proof fn lemma_order_complete<T>(m: GraphModel<T>, s: usize, lifo: bool)
    requires
        m.wf(),
        s < m.verts.len(),
        exists|k: nat| run(m, start(m, s), k, lifo).frontier.len() == 0,
    ensures
        order(m, s, lifo).no_duplicates(),
        forall|p: Seq<usize>| m.is_walk(p) && p[0] == s ==> order(m, s, lifo).contains(p.last()),
{
    let k = choose|k: nat| run(m, start(m, s), k, lifo).frontier.len() == 0;
    let w = run(m, start(m, s), k, lifo);
    lemma_start_inv(m, s);
    lemma_run_inv(m, s, start(m, s), k, lifo);
    assert forall|p: Seq<usize>| m.is_walk(p) && p[0] == s implies order(m, s, lifo).contains(p.last()) by {
        lemma_walk_emitted(m, s, w, p, p.len() - 1);
    }
}

/// An edge of `x` whose target may still be unmarked: one at or after the
/// next edge position of `x`'s frame on the stack.
pub open spec fn edge_pending(d: Descent, x: usize, j: int) -> bool {
    exists|f: int| 0 <= f < d.frames.len() && (#[trigger] d.frames[f]).0 == x && j >= d.frames[f].1
}

/// What holds in every state of a descent from `s`: the marked vertices are
/// those emitted, none twice; each emitted vertex has at most one frame; and
/// each edge of an emitted vertex leads to a marked vertex unless its frame
/// has yet to try it.
pub open spec fn descent_inv<T>(m: GraphModel<T>, s: usize, d: Descent) -> bool {
    let n = m.verts.len();
    &&& d.visited.len() == n
    &&& s < n
    &&& d.visited[s as int]
    &&& forall|f: int| 0 <= f < d.frames.len() ==> (#[trigger] d.frames[f]).0 < n
        && d.frames[f].1 <= m.adj[d.frames[f].0 as int].len() && d.out.contains(d.frames[f].0)
    &&& forall|f: int, g: int| 0 <= f < g < d.frames.len() ==> (#[trigger] d.frames[f]).0 != (#[trigger] d.frames[g]).0
    &&& forall|k: int| 0 <= k < d.out.len() ==> #[trigger] d.out[k] < n
    &&& forall|x: int| 0 <= x < n ==> ((#[trigger] d.visited[x]) <==> d.out.contains(x as usize))
    &&& d.out.no_duplicates()
    &&& forall|i: int, j: int|
        0 <= i < d.out.len() && 0 <= j < m.adj[d.out[i] as int].len() ==> d.visited[(#[trigger] m.adj[d.out[i] as int][j]).0 as int]
            || edge_pending(d, d.out[i], j)
}

pub proof fn lemma_descent_start_inv<T>(m: GraphModel<T>, s: usize)
    requires
        m.wf(),
        s < m.verts.len(),
    ensures
        descent_inv(m, s, descent_start(m, s)),
{
    let d = descent_start(m, s);
    assert(d.out[0] == s);
    assert forall|x: int| 0 <= x < m.verts.len() implies ((#[trigger] d.visited[x]) <==> d.out.contains(x as usize)) by {
        if d.out.contains(x as usize) {
            let j = choose|j: int| 0 <= j < d.out.len() && d.out[j] == x as usize;
            assert(j == 0);
        }
    }
    assert forall|i: int, j: int| 0 <= i < d.out.len() && 0 <= j < m.adj[d.out[i] as int].len() implies d.visited[(#[trigger] m.adj[d.out[i] as int][j]).0 as int]
        || edge_pending(d, d.out[i], j) by {
        assert(d.frames[0] == (s, 0usize));
    }
}

pub proof fn lemma_descent_step_inv<T>(m: GraphModel<T>, s: usize, d: Descent)
    requires
        m.wf(),
        descent_inv(m, s, d),
        d.frames.len() > 0,
    ensures
        descent_inv(m, s, descent_step(m, d)),
{
    let n = m.verts.len();
    let last = d.frames.len() - 1;
    let top = d.frames[last];
    let v = top.0;
    let k = top.1;
    let d2 = descent_step(m, d);
    assert(d.frames.last() == top);
    if k >= m.adj[v as int].len() {
        assert(d2.frames == d.frames.drop_last());
        assert forall|i: int, j: int| 0 <= i < d2.out.len() && 0 <= j < m.adj[d2.out[i] as int].len() implies d2.visited[(#[trigger] m.adj[d2.out[i] as int][j]).0 as int]
            || edge_pending(d2, d2.out[i], j) by {
            if !d.visited[m.adj[d.out[i] as int][j].0 as int] {
                let f = choose|f: int| 0 <= f < d.frames.len() && (#[trigger] d.frames[f]).0 == d.out[i] && j >= d.frames[f].1;
                if f == last {
                    assert(false);
                }
                assert(d2.frames[f] == d.frames[f]);
            }
        }
    } else {
        let w = m.adj[v as int][k as int].0;
        let fr = d.frames.update(last, (v, (k + 1) as usize));
        assert(w < n);
        assert forall|f: int| 0 <= f < fr.len() implies (#[trigger] fr[f]).0 == d.frames[f].0 && (f != last ==> fr[f] == d.frames[f]) by {}
        if d.visited[w as int] {
            assert(d2 == Descent { frames: fr, ..d });
            assert forall|i: int, j: int| 0 <= i < d2.out.len() && 0 <= j < m.adj[d2.out[i] as int].len() implies d2.visited[(#[trigger] m.adj[d2.out[i] as int][j]).0 as int]
                || edge_pending(d2, d2.out[i], j) by {
                assert(d2.out == d.out && d2.visited == d.visited && d2.frames == fr);
                if !d.visited[m.adj[d.out[i] as int][j].0 as int] {
                    let f = choose|f: int| 0 <= f < d.frames.len() && (#[trigger] d.frames[f]).0 == d.out[i] && j >= d.frames[f].1;
                    if f == last {
                        assert(d.out[i] == v);
                        if j == k {
                            assert(m.adj[v as int][j].0 == w);
                            assert(false);
                        }
                        assert(d2.frames[f].0 == d2.out[i] && j >= d2.frames[f].1);
                    } else {
                        assert(fr[f] == d.frames[f]);
                        assert(d2.frames[f].0 == d2.out[i] && j >= d2.frames[f].1);
                    }
                    assert(edge_pending(d2, d2.out[i], j));
                }
            }
            assert forall|f: int| 0 <= f < d2.frames.len() implies (#[trigger] d2.frames[f]).0 < n
                && d2.frames[f].1 <= m.adj[d2.frames[f].0 as int].len() && d2.out.contains(d2.frames[f].0) by {
                assert(d.frames[f].0 < n && d.out.contains(d.frames[f].0));
            }
        } else {
            let out2 = d.out.push(w);
            let vis2 = d.visited.update(w as int, true);
            let fr2 = fr.push((w, 0usize));
            assert(d2 == Descent { frames: fr2, visited: vis2, out: out2 });
            assert(!d.out.contains(w));
            assert forall|q: int| 0 <= q < d.out.len() implies #[trigger] out2[q] == d.out[q] by {}
            assert(out2[d.out.len() as int] == w);
            assert forall|x: int| 0 <= x < n implies ((#[trigger] vis2[x]) <==> out2.contains(x as usize)) by {
                if out2.contains(x as usize) {
                    let j = choose|j: int| 0 <= j < out2.len() && out2[j] == x as usize;
                    if j < d.out.len() {
                        assert(d.out[j] == x as usize);
                    }
                }
                if d.out.contains(x as usize) {
                    let j = choose|j: int| 0 <= j < d.out.len() && d.out[j] == x as usize;
                    assert(out2[j] == x as usize);
                }
            }
            assert(out2.no_duplicates()) by {
                assert forall|a: int, b: int| 0 <= a < b < out2.len() implies out2[a] != out2[b] by {
                    if b == d.out.len() {
                        assert(d.out.contains(out2[a]));
                    }
                }
            }
            assert forall|f: int| 0 <= f < fr2.len() implies (#[trigger] fr2[f]).0 < n
                && fr2[f].1 <= m.adj[fr2[f].0 as int].len() && out2.contains(fr2[f].0) by {
                if f < fr.len() {
                    assert(fr2[f] == fr[f]);
                    let x = d.frames[f].0;
                    assert(d.out.contains(x));
                    let j = choose|j: int| 0 <= j < d.out.len() && d.out[j] == x;
                    assert(out2[j] == x);
                } else {
                    assert(fr2[f] == (w, 0usize));
                    assert(out2[d.out.len() as int] == w);
                }
            }
            assert forall|f: int, g: int| 0 <= f < g < fr2.len() implies (#[trigger] fr2[f]).0 != (#[trigger] fr2[g]).0 by {
                if g == fr.len() {
                    assert(fr2[f] == fr[f]);
                    assert(d.out.contains(d.frames[f].0));
                } else {
                    assert(fr2[f] == fr[f] && fr2[g] == fr[g]);
                }
            }
            assert forall|i: int, j: int| 0 <= i < out2.len() && 0 <= j < m.adj[out2[i] as int].len() implies vis2[(#[trigger] m.adj[out2[i] as int][j]).0 as int]
                || edge_pending(d2, out2[i], j) by {
                if i == d.out.len() {
                    assert(d2.frames[fr.len() as int] == (w, 0usize));
                    assert(out2[i] == w);
                    assert(edge_pending(d2, out2[i], j));
                } else {
                    assert(out2[i] == d.out[i]);
                    let t = m.adj[d.out[i] as int][j].0;
                    if !d.visited[t as int] {
                        let f = choose|f: int| 0 <= f < d.frames.len() && (#[trigger] d.frames[f]).0 == d.out[i] && j >= d.frames[f].1;
                        assert(fr2[f] == fr[f]);
                        if f == last {
                            assert(d.out[i] == v);
                            if j == k {
                                assert(m.adj[v as int][j].0 == w);
                                assert(vis2[w as int]);
                            } else {
                                assert(d2.frames[f].0 == out2[i] && j >= d2.frames[f].1);
                                assert(edge_pending(d2, out2[i], j));
                            }
                        } else {
                            assert(fr[f] == d.frames[f]);
                            assert(d2.frames[f].0 == out2[i] && j >= d2.frames[f].1);
                            assert(edge_pending(d2, out2[i], j));
                        }
                    } else {
                        assert(t < n);
                    }
                }
            }
        }
    }
}

pub proof fn lemma_descent_run_inv<T>(m: GraphModel<T>, s: usize, d: Descent, k: nat)
    requires
        m.wf(),
        descent_inv(m, s, d),
    ensures
        descent_inv(m, s, descent_run(m, d, k)),
    decreases k,
{
    if k > 0 && d.frames.len() > 0 {
        lemma_descent_step_inv(m, s, d);
        lemma_descent_run_inv(m, s, descent_step(m, d), (k - 1) as nat);
    }
}

/// Once the stack is empty, every vertex of a walk from `s` has been emitted.
pub proof fn lemma_descent_walk_emitted<T>(m: GraphModel<T>, s: usize, d: Descent, p: Seq<usize>, i: int)
    requires
        m.wf(),
        descent_inv(m, s, d),
        d.frames.len() == 0,
        m.is_walk(p),
        p[0] == s,
        0 <= i < p.len(),
    ensures
        d.out.contains(p[i]),
    decreases i,
{
    if i > 0 {
        lemma_descent_walk_emitted(m, s, d, p, i - 1);
        let u = p[i - 1];
        assert(m.is_edge(p[i - 1] as int, p[(i - 1) + 1] as int));
        let k = choose|k: int| 0 <= k < m.adj[u as int].len() && m.adj[u as int][k].0 == p[i];
        let j = choose|j: int| 0 <= j < d.out.len() && d.out[j] == u;
        assert(d.visited[m.adj[d.out[j] as int][k].0 as int] || edge_pending(d, d.out[j], k));
        assert(d.visited[p[i] as int]);
    } else {
        assert(d.visited[s as int]);
    }
}

/// A descent that ends emits no vertex twice, and every vertex that a walk from
/// its start reaches.
pub proof fn lemma_descent_complete<T>(m: GraphModel<T>, s: usize)
    requires
        m.wf(),
        s < m.verts.len(),
        exists|k: nat| descent_run(m, descent_start(m, s), k).frames.len() == 0,
    ensures
        descent_order(m, s).no_duplicates(),
        forall|p: Seq<usize>| m.is_walk(p) && p[0] == s ==> descent_order(m, s).contains(p.last()),
{
    let k = choose|k: nat| descent_run(m, descent_start(m, s), k).frames.len() == 0;
    let d = descent_run(m, descent_start(m, s), k);
    lemma_descent_start_inv(m, s);
    lemma_descent_run_inv(m, s, descent_start(m, s), k);
    assert forall|p: Seq<usize>| m.is_walk(p) && p[0] == s implies descent_order(m, s).contains(p.last()) by {
        lemma_descent_walk_emitted(m, s, d, p, p.len() - 1);
    }
}

} // verus!
