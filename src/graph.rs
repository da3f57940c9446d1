use vstd::laws_eq::obeys_concrete_eq;
use vstd::prelude::*;
use crate::shortest::{
    lemma_relax_run_add, lemma_relax_run_inv, lemma_settled_is, lemma_start_relax_inv,
    lemma_total_nonneg, lemma_total_update, lemma_trail_walk, lemma_found_is_lightest, is_lightest, mark,
    lemma_found_iff_within_reach, within_reach,
    min_pos,
    relax_edges, relax_run, relax_start, relax_step, sat_add, shortest_path, total, trail, Relax,
};
use crate::walk::{
    count_true, lemma_count_true_le, lemma_order_is, lemma_run_add, lemma_scan_counts, next_vertex, order, rest, run,
    scan, start, step, Walker, descent_start, descent_step, descent_run, descent_order,
    lemma_descent_run_add, lemma_descent_order_is, pending, Descent, lemma_count_true_mark,
    lemma_pending_nonneg, lemma_order_complete, lemma_descent_complete,
};

verus! {

/// The error of a graph operation, with a message for people.
#[derive(Debug)]
pub struct GraphErr {
    pub msg: String,
}

impl GraphErr {
    pub fn new(msg: String) -> (r: Self)
        ensures
            r.msg@ == msg@,
    {
        GraphErr { msg }
    }
}

/// An edge as callers see it: the vertex it leads to and its weight.
#[derive(Debug)]
pub struct GraphNode<T> {
    pub vertex: T,
    pub weight: usize,
}

impl<T: Copy> GraphNode<T> {
    pub fn new(vertex: T, weight: usize) -> (r: Self)
        ensures
            r.vertex == vertex,
            r.weight == weight,
    {
        GraphNode { vertex, weight }
    }
}

/// The abstract graph: the vertices in the order they were added, and for the
/// vertex at each position its edges in the order they were added, each as the
/// position of the target vertex and the weight.
pub struct GraphModel<T> {
    pub verts: Seq<T>,
    pub adj: Seq<Seq<(usize, usize)>>,
}

impl<T> GraphModel<T> {
    pub open spec fn n(self) -> int {
        self.verts.len() as int
    }

    /// One edge list per vertex, no vertex twice, and every edge leads to a vertex.
    pub open spec fn wf(self) -> bool {
        &&& self.adj.len() == self.verts.len()
        &&& self.verts.len() <= usize::MAX
        &&& self.verts.no_duplicates()
        &&& forall|u: int, k: int|
            0 <= u < self.adj.len() && 0 <= k < self.adj[u].len() ==> (#[trigger] self.adj[u][k]).0
                < self.verts.len()
    }

    pub open spec fn has(self, v: T) -> bool {
        self.verts.contains(v)
    }

    /// The position of a vertex of the graph.
    pub open spec fn index_of(self, v: T) -> int {
        choose|i: int| 0 <= i < self.verts.len() && self.verts[i] == v
    }

    /// The edges of the vertex at position `u`, with their targets named.
    pub open spec fn edges_of(self, u: int) -> Seq<(T, usize)> {
        self.adj[u].map_values(|e: (usize, usize)| (self.verts[e.0 as int], e.1))
    }

    /// The vertices at the given positions.
    pub open spec fn names(self, idx: Seq<usize>) -> Seq<T> {
        idx.map_values(|i: usize| self.verts[i as int])
    }

    /// The graph with `v` added as a vertex without edges, unless it is one.
    pub open spec fn with_vertex(self, v: T) -> GraphModel<T> {
        if self.has(v) {
            self
        } else {
            GraphModel { verts: self.verts.push(v), adj: self.adj.push(Seq::empty()) }
        }
    }

    /// The graph with an edge of weight `w` added between `a` and `b` in both
    /// directions (first at the end of `a`'s edges, then of `b`'s), when both
    /// are vertices; else unchanged.
    pub open spec fn with_edge(self, a: T, b: T, w: usize) -> GraphModel<T> {
        if self.has(a) && self.has(b) {
            let i = self.index_of(a);
            let j = self.index_of(b);
            let x = self.adj.update(i, self.adj[i].push((j as usize, w)));
            GraphModel { verts: self.verts, adj: x.update(j, x[j].push((i as usize, w))) }
        } else {
            self
        }
    }

    /// Positions that hold every vertex a walk from `s` reaches, none twice,
    /// name every vertex reachable from the one at `s`, none twice.
    pub proof fn lemma_names_complete(self, s: usize, idx: Seq<usize>)
        requires
            self.wf(),
            s < self.verts.len(),
            idx.no_duplicates(),
            forall|j: int| 0 <= j < idx.len() ==> #[trigger] idx[j] < self.verts.len(),
            forall|p: Seq<usize>| self.is_walk(p) && p[0] == s ==> idx.contains(p.last()),
        ensures
            self.names(idx).no_duplicates(),
            forall|b: T| self.reachable(self.verts[s as int], b) ==> self.names(idx).contains(b),
    {
        let nm = self.names(idx);
        assert forall|a: int, b: int| 0 <= a < b < nm.len() implies nm[a] != nm[b] by {
            assert(idx[a] != idx[b]);
        }
        assert forall|b: T| self.reachable(self.verts[s as int], b) implies nm.contains(b) by {
            let p = choose|p: Seq<usize>|
                #![trigger self.is_walk(p)]
                self.is_walk(p) && self.verts[p[0] as int] == self.verts[s as int] && self.verts[p.last() as int] == b;
            assert(p[0] < self.verts.len());
            assert(p[0] == s);
            assert(idx.contains(p.last()));
            let j = choose|j: int| 0 <= j < idx.len() && idx[j] == p.last();
            assert(nm[j] == b);
        }
    }

    /// What is reachable from a vertex is reachable from one of the graph.
    pub proof fn lemma_reach_from_vertex(self, a: T, b: T)
        requires
            self.reachable(a, b),
        ensures
            self.has(a),
    {
        let p = choose|p: Seq<usize>|
            #![trigger self.is_walk(p)]
            self.is_walk(p) && self.verts[p[0] as int] == a && self.verts[p.last() as int] == b;
        assert(p[0] < self.verts.len());
    }

    pub proof fn lemma_index_of_is(self, v: T, i: int)
        requires
            self.wf(),
            0 <= i < self.verts.len(),
            self.verts[i] == v,
        ensures
            self.index_of(v) == i,
    {
        let j = self.index_of(v);
        assert(self.verts.contains(v));
        assert(0 <= j < self.verts.len() && self.verts[j] == v);
    }

    pub proof fn lemma_with_vertex_wf(self, v: T)
        requires
            self.wf(),
            self.verts.len() < usize::MAX,
        ensures
            self.with_vertex(v).wf(),
            self.with_vertex(v).has(v),
            forall|x: T| self.has(x) ==> self.with_vertex(v).has(x) && self.with_vertex(v).index_of(x) == self.index_of(x),
    {
        let g = self.with_vertex(v);
        if !self.has(v) {
            assert(g.verts[self.verts.len() as int] == v);
            assert forall|u: int, k: int| 0 <= u < g.adj.len() && 0 <= k < g.adj[u].len() implies (#[trigger] g.adj[u][k]).0 < g.verts.len() by {
                assert(u < self.adj.len());
                assert(g.adj[u] == self.adj[u]);
            }
        }
        assert forall|x: T| self.has(x) implies g.has(x) && g.index_of(x) == self.index_of(x) by {
            let i = self.index_of(x);
            assert(self.verts[i] == x);
            assert(g.verts[i] == x);
            g.lemma_index_of_is(x, i);
        }
    }

    pub open spec fn is_edge(self, u: int, v: int) -> bool {
        exists|k: int| 0 <= k < self.adj[u].len() && self.adj[u][k].0 == v
    }

    /// A walk along edges, given by vertex positions.
    pub open spec fn is_walk(self, p: Seq<usize>) -> bool {
        &&& p.len() > 0
        &&& forall|i: int| 0 <= i < p.len() ==> p[i] < self.verts.len()
        &&& forall|i: int| 0 <= i < p.len() - 1 ==> self.is_edge(p[i] as int, #[trigger] p[i + 1] as int)
    }

    /// `a` and `b` are vertices and `a` has an edge to `b`.
    pub open spec fn adjacent(self, a: T, b: T) -> bool {
        self.has(a) && self.has(b) && self.is_edge(self.index_of(a), self.index_of(b))
    }

    /// `b` can be reached from `a` by following edges (or is `a`).
    pub open spec fn reachable(self, a: T, b: T) -> bool {
        exists|p: Seq<usize>|
            #![trigger self.is_walk(p)]
            self.is_walk(p) && self.verts[p[0] as int] == a && self.verts[p.last() as int] == b
    }
}

/// Adding two vertices and an edge of weight `w` between them leaves each with
/// an edge of weight `w` to the other.
pub proof fn lemma_edge_symmetric<T>(m: GraphModel<T>, u: T, v: T, w: usize)
    requires
        m.wf(),
        m.verts.len() + 2 <= usize::MAX,
    ensures
        ({
            let g = m.with_vertex(u).with_vertex(v).with_edge(u, v, w);
            &&& g.edges_of(g.index_of(u)).contains((v, w))
            &&& g.edges_of(g.index_of(v)).contains((u, w))
        }),
{
    let g1 = m.with_vertex(u);
    m.lemma_with_vertex_wf(u);
    let g2 = g1.with_vertex(v);
    g1.lemma_with_vertex_wf(v);
    let i = g2.index_of(u);
    let j = g2.index_of(v);
    assert(g2.verts[i] == u && g2.verts[j] == v);
    let x = g2.adj.update(i, g2.adj[i].push((j as usize, w)));
    let g = g2.with_edge(u, v, w);
    assert(g.adj == x.update(j, x[j].push((i as usize, w))));
    assert(g.verts == g2.verts);
    assert(g.index_of(u) == i && g.index_of(v) == j);
    let ei = g.edges_of(i);
    let ej = g.edges_of(j);
    if i == j {
        assert(g.adj[i] == g2.adj[i].push((j as usize, w)).push((i as usize, w)));
        assert(ei[ei.len() - 1] == (v, w));
        assert(ej[ej.len() - 1] == (u, w));
    } else {
        assert(g.adj[i] == g2.adj[i].push((j as usize, w)));
        assert(g.adj[j] == g2.adj[j].push((i as usize, w)));
        assert(ei[ei.len() - 1] == (v, w));
        assert(ej[ej.len() - 1] == (u, w));
    }
}

/// Adding a vertex a second time changes nothing, its edges included.
pub proof fn lemma_add_vertex_idempotent<T>(m: GraphModel<T>, u: T)
    ensures
        m.with_vertex(u).with_vertex(u) == m.with_vertex(u),
{
    if !m.has(u) {
        assert(m.with_vertex(u).verts[m.verts.len() as int] == u);
    }
}

/// A graph is determined by its vertices, in order, and the edges of each:
/// two graphs that agree on them are the same graph, so a graph rebuilt from
/// them has the same traversals and the same shortest paths.
pub proof fn lemma_rebuilt_same<T>(a: GraphModel<T>, b: GraphModel<T>)
    requires
        a.wf(),
        b.wf(),
        a.verts == b.verts,
        forall|i: int| 0 <= i < a.verts.len() ==> #[trigger] a.edges_of(i) == b.edges_of(i),
    ensures
        a == b,
        forall|s: usize, lifo: bool| order(a, s, lifo) == order(b, s, lifo),
        forall|s: usize| descent_order(a, s) == descent_order(b, s),
        forall|s: usize, e: usize| shortest_path(a, s, e) == shortest_path(b, s, e),
{
    assert forall|i: int| 0 <= i < a.adj.len() implies a.adj[i] =~= b.adj[i] by {
        assert(a.edges_of(i) == b.edges_of(i));
        assert(a.edges_of(i).len() == a.adj[i].len());
        assert(b.edges_of(i).len() == b.adj[i].len());
        assert forall|k: int| 0 <= k < a.adj[i].len() implies a.adj[i][k] == b.adj[i][k] by {
            assert(a.edges_of(i)[k] == b.edges_of(i)[k]);
            let x = a.adj[i][k].0 as int;
            let y = b.adj[i][k].0 as int;
            assert(a.verts[x] == b.verts[y]);
            assert(x == y);
        }
    }
    assert(a.adj =~= b.adj);
}

/// A weighted graph kept as adjacency lists: the vertices in the order they
/// were added, and for each its edges in the order they were added, each edge
/// given by the position of its target and its weight.
pub struct Graph<T> {
    vertices: Vec<T>,
    adj_list: Vec<Vec<(usize, usize)>>,
}

impl<T> View for Graph<T> {
    type V = GraphModel<T>;

    closed spec fn view(&self) -> GraphModel<T> {
        GraphModel { verts: self.vertices@, adj: self.adj_list@.map_values(|es: Vec<(usize, usize)>| es@) }
    }
}

impl<T: Copy + PartialEq> Graph<T> {
    pub closed spec fn wf(&self) -> bool {
        self@.wf()
    }

    /// The graph without vertices.
    pub fn new() -> (r: Self)
        ensures
            r.wf(),
            r@.verts == Seq::<T>::empty(),
            r@.adj == Seq::<Seq<(usize, usize)>>::empty(),
    {
        let r = Graph { vertices: Vec::new(), adj_list: Vec::new() };
        assert(r@.adj =~= Seq::<Seq<(usize, usize)>>::empty());
        r
    }

    /// The position of `v` among the vertices, if it is one.
    fn find(&self, v: T) -> (r: Option<usize>)
        requires
            obeys_concrete_eq::<T>(),
            self.wf(),
        ensures
            r.is_none() <==> !self@.has(v),
            r.is_some() ==> r.unwrap() < self@.n() && self@.verts[r.unwrap() as int] == v
                && r.unwrap() == self@.index_of(v),
    {
        let mut i: usize = 0;
        while i < self.vertices.len()
            invariant
                obeys_concrete_eq::<T>(),
                self.wf(),
                i <= self.vertices.len(),
                forall|j: int| 0 <= j < i ==> self.vertices@[j] != v,
            decreases self.vertices.len() - i,
        {
            proof {
                reveal(obeys_concrete_eq);
            }
            if self.vertices[i] == v {
                proof {
                    self@.lemma_index_of_is(v, i as int);
                }
                return Some(i);
            }
            i = i + 1;
        }
        None
    }

    /// Whether `v` is a vertex of the graph.
    pub fn contains(&self, v: T) -> (r: bool)
        requires
            obeys_concrete_eq::<T>(),
            self.wf(),
        ensures
            r == self@.has(v),
    {
        self.find(v).is_some()
    }

    /// Adds `vertex` with no edges, unless it is already a vertex.
    pub fn add_vertex(&mut self, vertex: T)
        requires
            obeys_concrete_eq::<T>(),
            old(self).wf(),
        ensures
            final(self).wf(),
            final(self)@ == old(self)@.with_vertex(vertex),
    {
        if self.find(vertex).is_none() {
            self.vertices.push(vertex);
            self.adj_list.push(Vec::new());
            assert(self.vertices@.len() == self.vertices.len());
            assert(self@.adj =~= old(self)@.adj.push(Seq::empty()));
            assert(self@.verts =~= old(self)@.verts.push(vertex));
            assert forall|u: int, k: int|
                0 <= u < self@.adj.len() && 0 <= k < self@.adj[u].len() implies (
                #[trigger] self@.adj[u][k]).0 < self@.verts.len() by {
                assert(u < old(self)@.adj.len());
                assert(self@.adj[u] == old(self)@.adj[u]);
            }
        }
    }

    /// The positions a frontier traversal from position `s` emits.
    fn walk(&self, s: usize, lifo: bool) -> (r: Vec<usize>)
        requires
            self.wf(),
            s < self@.n(),
        ensures
            r@ == order(self@, s, lifo),
            forall|j: int| 0 <= j < r@.len() ==> #[trigger] r@[j] < self@.n(),
            r@.no_duplicates(),
            forall|p: Seq<usize>| self@.is_walk(p) && p[0] == s ==> r@.contains(p.last()),
    {
        let ghost m = self@;
        let n = self.vertices.len();
        let mut visited: Vec<bool> = Vec::new();
        let mut i: usize = 0;
        while i < n
            invariant
                i <= n,
                visited@ =~= Seq::new(i as nat, |j: int| j == s),
            decreases n - i,
        {
            visited.push(i == s);
            i = i + 1;
        }
        let mut buf: Vec<usize> = Vec::new();
        buf.push(s);
        let mut head: usize = 0;
        let mut out: Vec<usize> = Vec::new();
        let ghost mut k: nat = 0;
        proof {
            assert(buf@.subrange(0, 1) =~= seq![s]);
            assert(out@ =~= Seq::<usize>::empty());
            assert(start(m, s).visited =~= visited@);
            assert(start(m, s) == Walker { frontier: buf@.subrange(0, 1), visited: visited@, out: out@ });
            lemma_count_true_le(visited@);
        }
        while head < buf.len()
            invariant
                self.wf(),
                m == self@,
                n == m.n(),
                s < n,
                head <= buf.len(),
                lifo ==> head == 0,
                visited@.len() == n,
                forall|j: int| 0 <= j < buf@.len() ==> #[trigger] buf@[j] < n,
                forall|j: int| 0 <= j < out@.len() ==> #[trigger] out@[j] < n,
                run(m, start(m, s), k, lifo) == (Walker {
                    frontier: buf@.subrange(head as int, buf@.len() as int),
                    visited: visited@,
                    out: out@,
                }),
            decreases n - count_true(visited@) + (buf@.len() - head),
        {
            let ghost cur = Walker {
                frontier: buf@.subrange(head as int, buf@.len() as int),
                visited: visited@,
                out: out@,
            };
            proof {
                lemma_run_add(m, start(m, s), k, 1, lifo);
                lemma_count_true_le(visited@);
            }
            let v: usize;
            if lifo {
                v = buf.pop().unwrap();
                assert(buf@.subrange(head as int, buf@.len() as int) =~= rest(cur, lifo));
            } else {
                v = buf[head];
                head = head + 1;
                assert(buf@.subrange(head as int, buf@.len() as int) =~= rest(cur, lifo));
            }
            assert(v == next_vertex(cur, lifo));
            out.push(v);
            let edges = &self.adj_list[v];
            assert(edges@ == m.adj[v as int]);
            let ghost vis0 = visited@;
            let ghost rest0 = rest(cur, lifo);
            proof {
                assert forall|q: int| 0 <= q < edges@.len() implies (#[trigger] edges@[q]).0 < vis0.len() by {
                    assert(m.adj[v as int][q] == edges@[q]);
                }
                lemma_scan_counts(edges@, vis0, rest0);
                assert(edges@.subrange(0, edges@.len() as int) =~= edges@);
            }
            let mut e: usize = 0;
            while e < edges.len()
                invariant
                    self.wf(),
                    m == self@,
                    n == m.n(),
                    edges@ == m.adj[v as int],
                    v < n,
                    e <= edges@.len(),
                    head <= buf.len(),
                    lifo ==> head == 0,
                    visited@.len() == n,
                    forall|j: int| 0 <= j < buf@.len() ==> #[trigger] buf@[j] < n,
                    forall|j: int| 0 <= j < out@.len() ==> #[trigger] out@[j] < n,
                    scan(edges@.subrange(e as int, edges@.len() as int), visited@,
                        buf@.subrange(head as int, buf@.len() as int)) == scan(edges@, vis0, rest0),
                decreases edges@.len() - e,
            {
                let w = edges[e].0;
                let ghost tail = edges@.subrange(e as int, edges@.len() as int);
                assert(tail.drop_first() =~= edges@.subrange(e + 1, edges@.len() as int));
                assert(m.adj[v as int][e as int] == edges@[e as int]);
                if !visited[w] {
                    visited.set(w, true);
                    let ghost old_front = buf@.subrange(head as int, buf@.len() as int);
                    buf.push(w);
                    assert(buf@.subrange(head as int, buf@.len() as int) =~= old_front.push(w));
                }
                e = e + 1;
            }
            proof {
                assert(edges@.subrange(e as int, edges@.len() as int) =~= Seq::<(usize, usize)>::empty());
                let nxt = Walker {
                    frontier: buf@.subrange(head as int, buf@.len() as int),
                    visited: visited@,
                    out: out@,
                };
                assert(step(m, cur, lifo) == nxt);
                assert(run(m, cur, 1, lifo) == run(m, step(m, cur, lifo), 0, lifo));
                k = k + 1;
            }
        }
        proof {
            lemma_order_is(m, s, k, lifo);
            lemma_order_complete(m, s, lifo);
        }
        out
    }

    /// The vertices at the given positions.
    fn names_of(&self, idx: &Vec<usize>) -> (r: Vec<T>)
        requires
            self.wf(),
            forall|j: int| 0 <= j < idx@.len() ==> #[trigger] idx@[j] < self@.n(),
        ensures
            r@ == self@.names(idx@),
    {
        let mut r: Vec<T> = Vec::new();
        let mut j: usize = 0;
        while j < idx.len()
            invariant
                self.wf(),
                forall|q: int| 0 <= q < idx@.len() ==> #[trigger] idx@[q] < self@.n(),
                j <= idx@.len(),
                r@ =~= self@.names(idx@.subrange(0, j as int)),
            decreases idx@.len() - j,
        {
            r.push(self.vertices[idx[j]]);
            j = j + 1;
            assert(r@ =~= self@.names(idx@.subrange(0, j as int)));
        }
        assert(idx@.subrange(0, j as int) =~= idx@);
        r
    }

    /// Depth-first order from `start`, with an explicit stack: a vertex is
    /// marked when pushed, emitted when popped, and its unmarked neighbours are
    /// pushed in edge order, so the last of them is visited first.
    pub fn dfs_iter(&self, start: T) -> (r: Vec<T>)
        requires
            obeys_concrete_eq::<T>(),
            self.wf(),
        ensures
            !self@.has(start) ==> r@.len() == 0,
            self@.has(start) ==> r@ == self@.names(order(self@, self@.index_of(start) as usize, true)),
            r@.no_duplicates(),
            forall|b: T| self@.reachable(start, b) ==> r@.contains(b),
    {
        match self.find(start) {
            None => {
                proof {
                    assert forall|b: T| self@.reachable(start, b) implies false by {
                        self@.lemma_reach_from_vertex(start, b);
                    }
                }
                Vec::new()
            },
            Some(s) => {
                let idx = self.walk(s, true);
                proof {
                    self@.lemma_names_complete(s, idx@);
                }
                self.names_of(&idx)
            },
        }
    }

    /// Breadth-first order from `start`: as `dfs_iter`, with a queue in place
    /// of the stack.
    pub fn bfs(&self, start: T) -> (r: Vec<T>)
        requires
            obeys_concrete_eq::<T>(),
            self.wf(),
        ensures
            !self@.has(start) ==> r@.len() == 0,
            self@.has(start) ==> r@ == self@.names(order(self@, self@.index_of(start) as usize, false)),
            r@.no_duplicates(),
            forall|b: T| self@.reachable(start, b) ==> r@.contains(b),
    {
        match self.find(start) {
            None => {
                proof {
                    assert forall|b: T| self@.reachable(start, b) implies false by {
                        self@.lemma_reach_from_vertex(start, b);
                    }
                }
                Vec::new()
            },
            Some(s) => {
                let idx = self.walk(s, false);
                proof {
                    self@.lemma_names_complete(s, idx@);
                }
                self.names_of(&idx)
            },
        }
    }

    /// Adds an edge of the given weight between `v1` and `v2`, in both
    /// directions: `v2` goes at the end of `v1`'s edges, then `v1` at the end of
    /// `v2`'s. Fails, changing nothing, when either is not a vertex.
    pub fn add_edge(&mut self, v1: T, v2: T, weight: usize) -> (r: Result<(), GraphErr>)
        requires
            obeys_concrete_eq::<T>(),
            old(self).wf(),
        ensures
            final(self).wf(),
            r.is_err() <==> !(old(self)@.has(v1) && old(self)@.has(v2)),
            final(self)@ == old(self)@.with_edge(v1, v2, weight),
    {
        let i = match self.find(v1) {
            Some(i) => i,
            None => {
                return Err(GraphErr::new(String::from_str("unknown vertex")));
            },
        };
        let j = match self.find(v2) {
            Some(j) => j,
            None => {
                return Err(GraphErr::new(String::from_str("unknown vertex")));
            },
        };
        let ghost m = self@;
        let ghost a = m.adj.update(i as int, m.adj[i as int].push((j, weight)));
        let mut es: Vec<(usize, usize)> = Vec::new();
        std::mem::swap(&mut es, &mut self.adj_list[i]);
        es.push((j, weight));
        self.adj_list.set(i, es);
        assert(self@.adj =~= a);
        let mut es: Vec<(usize, usize)> = Vec::new();
        std::mem::swap(&mut es, &mut self.adj_list[j]);
        es.push((i, weight));
        self.adj_list.set(j, es);
        assert(self@.adj =~= a.update(j as int, a[j as int].push((i, weight))));
        assert(self@.verts =~= m.verts);
        assert forall|u: int, k: int|
            0 <= u < self@.adj.len() && 0 <= k < self@.adj[u].len() implies (
            #[trigger] self@.adj[u][k]).0 < self@.verts.len() by {
            if u != i && u != j {
                assert(self@.adj[u] == m.adj[u]);
            } else if u == j {
                if k < a[j as int].len() {
                    assert(self@.adj[u][k] == a[j as int][k]);
                    if u != i {
                        assert(a[j as int] == m.adj[u]);
                    } else {
                        assert(a[u][k] == m.adj[u].push((j, weight))[k]);
                    }
                }
            } else {
                assert(self@.adj[u] == a[u]);
                assert(a[u][k] == m.adj[u].push((j, weight))[k]);
            }
        }
        Ok(())
    }

    /// The positions the depth-first descent from position `s` emits.
    fn descend(&self, s: usize) -> (r: Vec<usize>)
        requires
            self.wf(),
            s < self@.n(),
        ensures
            r@ == descent_order(self@, s),
            forall|j: int| 0 <= j < r@.len() ==> #[trigger] r@[j] < self@.n(),
            r@.no_duplicates(),
            forall|p: Seq<usize>| self@.is_walk(p) && p[0] == s ==> r@.contains(p.last()),
    {
        let ghost m = self@;
        let n = self.vertices.len();
        let mut visited: Vec<bool> = Vec::new();
        let mut i: usize = 0;
        while i < n
            invariant
                i <= n,
                visited@ =~= Seq::new(i as nat, |j: int| j == s),
            decreases n - i,
        {
            visited.push(i == s);
            i = i + 1;
        }
        let mut frames: Vec<(usize, usize)> = Vec::new();
        frames.push((s, 0));
        let mut out: Vec<usize> = Vec::new();
        out.push(s);
        let ghost mut k: nat = 0;
        proof {
            assert(descent_start(m, s).visited =~= visited@);
            assert(descent_start(m, s).frames =~= frames@);
            assert(descent_start(m, s).out =~= out@);
            lemma_count_true_le(visited@);
        }
        while frames.len() > 0
            invariant
                self.wf(),
                m == self@,
                n == m.n(),
                visited@.len() == n,
                forall|j: int| 0 <= j < frames@.len() ==> (#[trigger] frames@[j]).0 < n
                    && frames@[j].1 <= m.adj[frames@[j].0 as int].len(),
                forall|j: int| 0 <= j < out@.len() ==> #[trigger] out@[j] < n,
                descent_run(m, descent_start(m, s), k) == (Descent {
                    frames: frames@,
                    visited: visited@,
                    out: out@,
                }),
            decreases n - count_true(visited@), pending(m, frames@),
        {
            let ghost cur = Descent { frames: frames@, visited: visited@, out: out@ };
            proof {
                lemma_descent_run_add(m, descent_start(m, s), k, 1);
                lemma_count_true_le(visited@);
                assert(descent_run(m, cur, 1) == descent_run(m, descent_step(m, cur), 0));
            }
            let last = frames.len() - 1;
            let (v, e) = frames[last];
            assert(frames@.drop_last().len() == last);
            assert(pending(m, cur.frames) == pending(m, cur.frames.drop_last()) + m.adj[v as int].len() - e + 1);
            if e >= self.adj_list[v].len() {
                frames.pop();
                assert(frames@ =~= cur.frames.drop_last());
                proof { lemma_pending_nonneg(m, frames@); }
            } else {
                let w = self.adj_list[v][e].0;
                assert(m.adj[v as int][e as int] == self.adj_list@[v as int]@[e as int]);
                frames.set(last, (v, e + 1));
                assert(frames@.drop_last() =~= cur.frames.drop_last());
                assert(pending(m, frames@) == pending(m, cur.frames.drop_last()) + m.adj[v as int].len() - e);
                proof { lemma_pending_nonneg(m, frames@); }
                if !visited[w] {
                    proof {
                        lemma_count_true_mark(visited@, w as int);
                    }
                    visited.set(w, true);
                    out.push(w);
                    frames.push((w, 0));
                    proof {
                        lemma_count_true_le(visited@);
                    }
                }
            }
            assert(descent_step(m, cur) == (Descent { frames: frames@, visited: visited@, out: out@ }));
            proof {
                k = k + 1;
            }
        }
        proof {
            lemma_descent_order_is(m, s, k);
            lemma_descent_complete(m, s);
        }
        out
    }

    /// Depth-first order from `start` in the recursive manner: a vertex is
    /// emitted when first reached, then each neighbour not yet reached is
    /// descended into, in edge order, before the next neighbour is tried. The
    /// call stack is explicit.
    pub fn dfs_recur(&self, start: T) -> (r: Vec<T>)
        requires
            obeys_concrete_eq::<T>(),
            self.wf(),
        ensures
            !self@.has(start) ==> r@.len() == 0,
            self@.has(start) ==> r@ == self@.names(descent_order(self@, self@.index_of(start) as usize)),
            r@.no_duplicates(),
            forall|b: T| self@.reachable(start, b) ==> r@.contains(b),
    {
        match self.find(start) {
            None => {
                proof {
                    assert forall|b: T| self@.reachable(start, b) implies false by {
                        self@.lemma_reach_from_vertex(start, b);
                    }
                }
                Vec::new()
            },
            Some(s) => {
                let idx = self.descend(s);
                proof {
                    self@.lemma_names_complete(s, idx@);
                }
                self.names_of(&idx)
            },
        }
    }

    /// The position of the next queue entry: least distance, first added.
    fn next_entry(queue: &Vec<(usize, usize)>) -> (p: usize)
        requires
            queue@.len() > 0,
        ensures
            p == min_pos(queue@),
            p < queue@.len(),
    {
        let mut best: usize = 0;
        let mut i: usize = 1;
        assert(queue@.subrange(0, 1).len() == 1);
        while i < queue.len()
            invariant
                1 <= i <= queue@.len(),
                best < i,
                best == min_pos(queue@.subrange(0, i as int)),
            decreases queue@.len() - i,
        {
            let ghost q = queue@.subrange(0, i as int + 1);
            assert(q.drop_last() =~= queue@.subrange(0, i as int));
            assert(q[best as int] == queue@[best as int]);
            if queue[i].0 < queue[best].0 {
                best = i;
            }
            i = i + 1;
        }
        assert(queue@.subrange(0, i as int) =~= queue@);
        best
    }

    /// The path found by relaxation from position `s` to position `e`.
    fn shortest(&self, s: usize, e: usize) -> (r: Option<Vec<usize>>)
        requires
            self.wf(),
            s < self@.n(),
            e < self@.n(),
        ensures
            r.is_some() == shortest_path(self@, s, e).is_some(),
            r.is_some() ==> r.unwrap()@ == shortest_path(self@, s, e).unwrap(),
            r.is_some() ==> forall|j: int| 0 <= j < r.unwrap()@.len() ==> #[trigger] r.unwrap()@[j] < self@.n(),
            r.is_some() ==> self@.is_walk(r.unwrap()@) && r.unwrap()@[0] == s && r.unwrap()@.last() == e,
            r.is_some() ==> is_lightest(self@, s, e, r.unwrap()@),
            r.is_some() <==> within_reach(self@, s, e),
    {
        let ghost m = self@;
        let n = self.vertices.len();
        let mut dist: Vec<usize> = Vec::new();
        let mut prev: Vec<Option<usize>> = Vec::new();
        let mut queue: Vec<(usize, usize)> = Vec::new();
        let ghost r0 = relax_start(m, s);
        let mut i: usize = 0;
        while i < n
            invariant
                i <= n,
                n == m.n(),
                r0 == relax_start(m, s),
                dist@ =~= r0.dist.subrange(0, i as int),
                prev@ =~= r0.prev.subrange(0, i as int),
                queue@ =~= r0.queue.subrange(0, i as int),
            decreases n - i,
        {
            let d = if i == s { 0 } else { usize::MAX };
            dist.push(d);
            prev.push(None);
            queue.push((d, i));
            i = i + 1;
        }
        let mut reached = false;
        let ghost mut done: Seq<usize> = Seq::empty();
        let ghost mut k: nat = 0;
        proof {
            assert(r0.dist.subrange(0, n as int) =~= r0.dist);
            assert(r0.prev.subrange(0, n as int) =~= r0.prev);
            assert(r0.queue.subrange(0, n as int) =~= r0.queue);
            assert(r0 == (Relax { dist: dist@, prev: prev@, queue: queue@, reached: reached, done: done }));
            lemma_total_nonneg(dist@);
        }
        while !reached && queue.len() > 0
            invariant
                self.wf(),
                m == self@,
                n == m.n(),
                e < n,
                dist@.len() == n,
                prev@.len() == n,
                forall|j: int| 0 <= j < queue@.len() ==> (#[trigger] queue@[j]).1 < n,
                forall|j: int| 0 <= j < n ==> (#[trigger] prev@[j]).is_some() ==> prev@[j].unwrap() < n,
                relax_run(m, relax_start(m, s), e, k) == (Relax {
                    dist: dist@,
                    prev: prev@,
                    queue: queue@,
                    reached: reached,
                    done: done,
                }),
            decreases total(dist@) + queue@.len(), (if reached { 0int } else { 1int }),
        {
            let ghost cur = Relax { dist: dist@, prev: prev@, queue: queue@, reached: reached, done: done };
            proof {
                lemma_relax_run_add(m, relax_start(m, s), e, k, 1);
                assert(relax_run(m, cur, e, 1) == relax_run(m, relax_step(m, cur, e), e, 0));
                lemma_total_nonneg(dist@);
            }
            let p = Self::next_entry(&queue);
            let u = queue[p].1;
            if u == e {
                reached = true;
                assert(relax_step(m, cur, e) == (Relax { dist: dist@, prev: prev@, queue: queue@, reached: reached, done: done }));
            } else {
                queue.remove(p);
                proof {
                    done = mark(done, u);
                }
                let du = dist[u];
                let edges = &self.adj_list[u];
                assert(edges@ == m.adj[u as int]);
                let ghost rest = Relax { dist: dist@, prev: prev@, queue: queue@, reached: reached, done: done };
                let ghost measure = total(dist@) + queue@.len();
                assert(edges@.subrange(0, edges@.len() as int) =~= edges@);
                let mut j: usize = 0;
                while j < edges.len()
                    invariant
                        self.wf(),
                        m == self@,
                        n == m.n(),
                        edges@ == m.adj[u as int],
                        u < n,
                        j <= edges@.len(),
                        dist@.len() == n,
                        prev@.len() == n,
                        !reached,
                        forall|q: int| 0 <= q < queue@.len() ==> (#[trigger] queue@[q]).1 < n,
                        forall|q: int| 0 <= q < n ==> (#[trigger] prev@[q]).is_some() ==> prev@[q].unwrap() < n,
                        total(dist@) + queue@.len() <= measure,
                        relax_edges(edges@.subrange(j as int, edges@.len() as int), u, du,
                            Relax { dist: dist@, prev: prev@, queue: queue@, reached: reached, done: done })
                            == relax_edges(edges@, u, du, rest),
                    decreases edges@.len() - j,
                {
                    let (w, wt) = edges[j];
                    let ghost tail = edges@.subrange(j as int, edges@.len() as int);
                    assert(tail.drop_first() =~= edges@.subrange(j + 1, edges@.len() as int));
                    assert(m.adj[u as int][j as int] == edges@[j as int]);
                    let c = if wt > usize::MAX - du { usize::MAX } else { du + wt };
                    assert(c == sat_add(du, wt));
                    if c < dist[w] {
                        proof {
                            lemma_total_update(dist@, w as int, c);
                        }
                        dist.set(w, c);
                        prev.set(w, Some(u));
                        queue.push((c, w));
                    }
                    j = j + 1;
                }
                assert(edges@.subrange(j as int, edges@.len() as int) =~= Seq::<(usize, usize)>::empty());
                assert(relax_step(m, cur, e) == (Relax { dist: dist@, prev: prev@, queue: queue@, reached: reached, done: done }));
            }
            proof {
                k = k + 1;
                lemma_total_nonneg(dist@);
            }
        }
        proof {
            lemma_settled_is(m, s, e, k);
            lemma_start_relax_inv(m, s);
            lemma_relax_run_inv(m, s, e, relax_start(m, s), k);
            lemma_found_iff_within_reach(m, s, e);
        }
        if !reached || dist[e] == usize::MAX {
            return None;
        }
        let ghost fin = Relax { dist: dist@, prev: prev@, queue: queue@, reached: reached, done: done };
        let ghost tr = trail(prev@, e, n as nat);
        let mut back: Vec<usize> = Vec::new();
        back.push(e);
        let mut at = e;
        let mut fuel = n;
        assert(back@.drop_last() + trail(prev@, at, fuel as nat) =~= tr);
        while fuel > 0 && prev[at].is_some()
            invariant
                n == m.n(),
                prev@.len() == n,
                forall|q: int| 0 <= q < n ==> (#[trigger] prev@[q]).is_some() ==> prev@[q].unwrap() < n,
                at < n,
                back@.len() > 0,
                back@.last() == at,
                forall|q: int| 0 <= q < back@.len() ==> #[trigger] back@[q] < n,
                back@.drop_last() + trail(prev@, at, fuel as nat) == tr,
            decreases fuel,
        {
            let ghost old_back = back@;
            let ghost old_at = at;
            at = prev[at].unwrap();
            back.push(at);
            proof {
                assert(trail(prev@, old_at, fuel as nat) == seq![old_at] + trail(prev@, at, (fuel - 1) as nat));
                assert(old_back =~= old_back.drop_last().push(old_at));
                assert(back@.drop_last() =~= old_back);
                assert(back@.drop_last() + trail(prev@, at, (fuel - 1) as nat) =~= tr);
            }
            fuel = fuel - 1;
        }
        assert(trail(prev@, at, fuel as nat) == seq![at]);
        assert(back@ =~= back@.drop_last() + seq![at]);
        if prev[at].is_some() {
            return None;
        }
        proof {
            lemma_trail_walk(m, s, fin, e, n as nat);
            assert(tr.last() == at);
        }
        let mut path: Vec<usize> = Vec::new();
        let mut q = back.len();
        while q > 0
            invariant
                q <= back@.len(),
                path@.len() == back@.len() - q,
                forall|t: int| 0 <= t < back@.len() ==> #[trigger] back@[t] < n,
                forall|t: int| 0 <= t < path@.len() ==> #[trigger] path@[t] == back@[back@.len() - 1 - t],
            decreases q,
        {
            q = q - 1;
            path.push(back[q]);
        }
        assert(path@ =~= tr.reverse());
        assert(path@[0] == tr.last());
        assert(path@.last() == tr[0]);
        proof {
            lemma_found_is_lightest(m, s, e);
        }
        Some(path)
    }

    /// A path of least total weight from `start` to `end`, found by relaxation
    /// with a priority queue that is seeded with every vertex and taken from in
    /// order of distance, the entry added first going first among equals; the
    /// path is read back from `end` along predecessors. Fails ("unknown
    /// vertex") when either is not a vertex, and ("no path") when no walk
    /// leads from `start` to `end` with a weight below `usize::MAX`, which
    /// stands for "unreached".
    pub fn dijkstra(&self, start: T, end: T) -> (r: Result<Vec<T>, GraphErr>)
        requires
            obeys_concrete_eq::<T>(),
            self.wf(),
        ensures
            !(self@.has(start) && self@.has(end)) ==> r.is_err(),
            self@.has(start) && self@.has(end) ==> ({
                let found = shortest_path(self@, self@.index_of(start) as usize, self@.index_of(end) as usize);
                &&& r.is_ok() == found.is_some()
                &&& r.is_ok() <==> within_reach(self@, self@.index_of(start) as usize, self@.index_of(end) as usize)
                &&& r.is_ok() ==> r.unwrap()@ == self@.names(found.unwrap())
                &&& r.is_ok() ==> is_lightest(self@, self@.index_of(start) as usize, self@.index_of(end) as usize, found.unwrap())
            }),
            r.is_ok() ==> r.unwrap()@.len() > 0 && r.unwrap()@[0] == start && r.unwrap()@.last() == end,
            r.is_ok() ==> forall|i: int| 0 <= i < r.unwrap()@.len() - 1 ==> self@.adjacent(
                #[trigger] r.unwrap()@[i], r.unwrap()@[i + 1]),
    {
        let s = match self.find(start) {
            Some(s) => s,
            None => {
                return Err(GraphErr::new(String::from_str("unknown vertex")));
            },
        };
        let e = match self.find(end) {
            Some(e) => e,
            None => {
                return Err(GraphErr::new(String::from_str("unknown vertex")));
            },
        };
        match self.shortest(s, e) {
            Some(idx) => {
                let r = self.names_of(&idx);
                proof {
                    let m = self@;
                    assert forall|i: int| 0 <= i < r@.len() - 1 implies m.adjacent(#[trigger] r@[i], r@[i + 1]) by {
                        assert(m.is_edge(idx@[i] as int, idx@[i + 1] as int));
                        m.lemma_index_of_is(r@[i], idx@[i] as int);
                        m.lemma_index_of_is(r@[i + 1], idx@[i + 1] as int);
                    }
                }
                Ok(r)
            },
            None => Err(GraphErr::new(String::from_str("no path"))),
        }
    }

    /// The edges of `v`, in the order they were added, when it is a vertex.
    pub fn neighbors(&self, v: T) -> (r: Option<Vec<GraphNode<T>>>)
        requires
            obeys_concrete_eq::<T>(),
            self.wf(),
        ensures
            r.is_some() == self@.has(v),
            r.is_some() ==> r.unwrap()@.len() == self@.edges_of(self@.index_of(v)).len(),
            r.is_some() ==> forall|k: int|
                0 <= k < r.unwrap()@.len() ==> ((#[trigger] r.unwrap()@[k]).vertex, r.unwrap()@[k].weight)
                    == self@.edges_of(self@.index_of(v))[k],
    {
        let i = match self.find(v) {
            Some(i) => i,
            None => {
                return None;
            },
        };
        let edges = &self.adj_list[i];
        let ghost want = self@.edges_of(i as int);
        let mut r: Vec<GraphNode<T>> = Vec::new();
        let mut k: usize = 0;
        while k < edges.len()
            invariant
                self.wf(),
                i < self@.n(),
                edges@ == self@.adj[i as int],
                want == self@.edges_of(i as int),
                k <= edges@.len(),
                r@.len() == k,
                want.len() == edges@.len(),
                forall|q: int| 0 <= q < k ==> ((#[trigger] r@[q]).vertex, r@[q].weight) == want[q],
            decreases edges@.len() - k,
        {
            let (t, w) = edges[k];
            assert(edges@[k as int].0 < self@.n());
            let g = GraphNode::new(self.vertices[t], w);
            assert(want[k as int] == (g.vertex, g.weight));
            let ghost before = r@;
            r.push(g);
            assert(r@ == before.push(g));
            k = k + 1;
        }
        Some(r)
    }

    /// The vertices, in the order they were added.
    pub fn vertices(&self) -> (r: Vec<T>)
        ensures
            r@ == self@.verts,
    {
        let mut r: Vec<T> = Vec::new();
        let mut k: usize = 0;
        while k < self.vertices.len()
            invariant
                k <= self.vertices@.len(),
                r@ =~= self.vertices@.subrange(0, k as int),
            decreases self.vertices@.len() - k,
        {
            r.push(self.vertices[k]);
            k = k + 1;
            assert(r@ =~= self.vertices@.subrange(0, k as int));
        }
        assert(self.vertices@.subrange(0, k as int) =~= self.vertices@);
        r
    }

    /// The graph with the given vertices, in order, and for the vertex at each
    /// position the given edges, in order, as `vertices` and `neighbors` give
    /// them out. Fails when a vertex repeats, when the two lists differ in
    /// length, or when an edge leads to a vertex that is not listed.
    pub fn from_adjacency(vertices: &Vec<T>, edges: &Vec<Vec<GraphNode<T>>>) -> (r: Result<Graph<T>, GraphErr>)
        requires
            obeys_concrete_eq::<T>(),
        ensures
            r.is_ok() <==> (vertices@.no_duplicates() && edges@.len() == vertices@.len() && forall|i: int, k: int|
                0 <= i < edges@.len() && 0 <= k < edges@[i]@.len() ==> vertices@.contains(
                    (#[trigger] edges@[i]@[k]).vertex,
                )),
            r.is_ok() ==> r.unwrap().wf() && r.unwrap()@.verts == vertices@,
            r.is_ok() ==> forall|i: int| 0 <= i < vertices@.len() ==> (#[trigger] r.unwrap()@.edges_of(i)).len() == edges@[i]@.len(),
            r.is_ok() ==> forall|i: int, k: int| 0 <= i < vertices@.len() && 0 <= k < edges@[i]@.len() ==>
                #[trigger] r.unwrap()@.edges_of(i)[k] == (edges@[i]@[k].vertex, edges@[i]@[k].weight),
    {
        let n = vertices.len();
        if edges.len() != n {
            return Err(GraphErr::new(String::from_str("vertex and edge lists differ in length")));
        }
        let mut g: Graph<T> = Graph::new();
        let mut i: usize = 0;
        while i < n
            invariant
                obeys_concrete_eq::<T>(),
                n == vertices@.len(),
                i <= n,
                g.wf(),
                g@.verts == vertices@.subrange(0, i as int),
                g@.adj.len() == i,
                forall|u: int| 0 <= u < i ==> (#[trigger] g@.adj[u]).len() == 0,
            decreases n - i,
        {
            let v = vertices[i];
            if g.contains(v) {
                proof {
                    let j = choose|j: int| 0 <= j < i && g@.verts[j] == v;
                    assert(vertices@[j] == vertices@[i as int]);
                }
                return Err(GraphErr::new(String::from_str("repeated vertex")));
            }
            g.add_vertex(v);
            i = i + 1;
            assert(g@.verts =~= vertices@.subrange(0, i as int));
        }
        assert(g@.verts =~= vertices@);
        let mut i: usize = 0;
        while i < n
            invariant
                obeys_concrete_eq::<T>(),
                n == vertices@.len(),
                n == edges@.len(),
                i <= n,
                g.wf(),
                g@.verts == vertices@,
                g@.adj.len() == n,
                forall|u: int| i <= u < n ==> (#[trigger] g@.adj[u]).len() == 0,
                forall|u: int| 0 <= u < i ==> (#[trigger] g@.edges_of(u)).len() == edges@[u]@.len(),
                forall|u: int, k: int| 0 <= u < i && 0 <= k < edges@[u]@.len() ==>
                    #[trigger] g@.edges_of(u)[k] == (edges@[u]@[k].vertex, edges@[u]@[k].weight),
                forall|u: int, k: int| 0 <= u < i && 0 <= k < edges@[u]@.len() ==> vertices@.contains(
                    (#[trigger] edges@[u]@[k]).vertex),
            decreases n - i,
        {
            let row_in = &edges[i];
            let mut row: Vec<(usize, usize)> = Vec::new();
            let mut k: usize = 0;
            while k < row_in.len()
                invariant
                    obeys_concrete_eq::<T>(),
                    n == vertices@.len(),
                    n == edges@.len(),
                    i < n,
                    g.wf(),
                    g@.verts == vertices@,
                    row_in@ == edges@[i as int]@,
                    k <= row_in@.len(),
                    row@.len() == k,
                    forall|q: int| 0 <= q < k ==> (#[trigger] row@[q]).0 < n,
                    forall|q: int| 0 <= q < k ==> (vertices@[(#[trigger] row@[q]).0 as int], row@[q].1) == (row_in@[q].vertex, row_in@[q].weight),
                    forall|q: int| 0 <= q < k ==> vertices@.contains((#[trigger] row_in@[q]).vertex),
                decreases row_in@.len() - k,
            {
                let e = &row_in[k];
                match g.find(e.vertex) {
                    Some(j) => {
                        row.push((j, e.weight));
                    },
                    None => {
                        assert(!vertices@.contains(edges@[i as int]@[k as int].vertex));
                        return Err(GraphErr::new(String::from_str("edge to an unlisted vertex")));
                    },
                }
                k = k + 1;
            }
            let ghost before = g@;
            g.adj_list.set(i, row);
            proof {
                assert(g@.verts == before.verts);
                assert forall|u: int, q: int|
                    0 <= u < g@.adj.len() && 0 <= q < g@.adj[u].len() implies (#[trigger] g@.adj[u][q]).0 < g@.verts.len() by {
                    if u != i {
                        assert(g@.adj[u] == before.adj[u]);
                    } else {
                        assert(g@.adj[u][q] == row@[q]);
                    }
                }
                assert forall|u: int| 0 <= u < i + 1 implies (#[trigger] g@.edges_of(u)).len() == edges@[u]@.len() by {
                    if u != i {
                        assert(g@.adj[u] == before.adj[u]);
                        assert(before.edges_of(u).len() == edges@[u]@.len());
                    }
                }
                assert forall|u: int, q: int| 0 <= u < i + 1 && 0 <= q < edges@[u]@.len() implies
                    #[trigger] g@.edges_of(u)[q] == (edges@[u]@[q].vertex, edges@[u]@[q].weight) by {
                    if u != i {
                        assert(g@.adj[u] == before.adj[u]);
                        assert(before.edges_of(u)[q] == (edges@[u]@[q].vertex, edges@[u]@[q].weight));
                    } else {
                        assert(g@.adj[u][q] == row@[q]);
                    }
                }
                assert forall|u: int, q: int| 0 <= u < i + 1 && 0 <= q < edges@[u]@.len() implies vertices@.contains(
                    (#[trigger] edges@[u]@[q]).vertex) by {
                    if u == i {
                        assert(edges@[u]@[q] == row_in@[q]);
                    }
                }
                assert forall|u: int| i + 1 <= u < n implies (#[trigger] g@.adj[u]).len() == 0 by {
                    assert(g@.adj[u] == before.adj[u]);
                }
            }
            i = i + 1;
        }
        Ok(g)
    }
}

} // verus!
