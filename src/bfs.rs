//! Breadth-first search for a shortest path between two vertices of a directed graph
//! given as adjacency lists.

use crate::queue::Queue;
use vstd::prelude::*;
use vstd::set_lib::{lemma_int_range, lemma_len_subset, set_int_range};

verus! {

/// The neighbours of one vertex, by index.
pub type Vertex = Vec<u32>;

/// Adjacency lists: the neighbours of vertex `i` are `graph[i]`.
pub type Graph = Vec<Vertex>;

/// Every neighbour index names a vertex of the graph.
pub open spec fn well_formed(g: Seq<Vertex>) -> bool {
    forall|u: int, k: int| 0 <= u < g.len() && 0 <= k < g[u]@.len() ==> #[trigger] g[u]@[k] < g.len()
}

/// There is an edge from `u` to `v`.
pub open spec fn edge(g: Seq<Vertex>, u: u32, v: u32) -> bool {
    u < g.len() && g[u as int]@.contains(v)
}

/// `p` is a non-empty walk: each vertex has an edge to the next.
pub open spec fn is_walk(g: Seq<Vertex>, p: Seq<u32>) -> bool {
    &&& p.len() > 0
    &&& forall|i: int| 0 <= i < p.len() - 1 ==> edge(g, #[trigger] p[i], p[i + 1])
}

/// Some walk leads from `s` to `e`.
pub open spec fn reachable(g: Seq<Vertex>, s: u32, e: u32) -> bool {
    exists|p: Seq<u32>| #[trigger] is_walk(g, p) && p[0] == s && p.last() == e
}

/// The vertices of a path whose entries are all present.
pub open spec fn vertices(p: Seq<Option<u32>>) -> Seq<u32> {
    p.map_values(|x: Option<u32>| x.unwrap())
}

/// `p` lists, all present, the vertices of a walk from `s` to `e` that
/// visits no vertex twice.
pub open spec fn is_simple_path(g: Seq<Vertex>, p: Seq<Option<u32>>, s: u32, e: u32) -> bool {
    &&& forall|i: int| 0 <= i < p.len() ==> (#[trigger] p[i]) is Some
    &&& is_walk(g, vertices(p))
    &&& vertices(p)[0] == s
    &&& vertices(p).last() == e
    &&& vertices(p).no_duplicates()
}

/// No walk from `s` to `e` has fewer than `m` vertices.
pub open spec fn no_shorter_walk(g: Seq<Vertex>, s: u32, e: u32, m: int) -> bool {
    forall|p: Seq<u32>| #[trigger] is_walk(g, p) && p[0] == s && p.last() == e ==> p.len() >= m
}

/// The set of marked positions.
spec fn marked(vis: Seq<bool>) -> Set<int> {
    Set::new(|v: int| 0 <= v < vis.len() && vis[v])
}

/// Every neighbour of `u` is marked, is not `e`, and is at most one level
/// deeper than `u`.
spec fn closed(g: Seq<Vertex>, vis: Seq<bool>, level: Seq<int>, e: u32, u: int) -> bool {
    forall|k: int|
        0 <= k < g[u]@.len() ==> {
            &&& vis[#[trigger] g[u]@[k] as int]
            &&& g[u]@[k] != e
            &&& level[g[u]@[k] as int] <= level[u] + 1
        }
}

/// `v` has a marked predecessor, one level up, with an edge to it.
spec fn linked(g: Seq<Vertex>, vis: Seq<bool>, prev: Seq<Option<u32>>, level: Seq<int>, v: int) -> bool {
    match prev[v] {
        Some(u) => u < g.len() && vis[u as int] && edge(g, u, v as u32) && level[u as int] + 1 == level[v],
        None => false,
    }
}

proof fn lemma_marked_bound(vis: Seq<bool>)
    ensures
        marked(vis).finite(),
        marked(vis).len() <= vis.len(),
{
    lemma_int_range(0, vis.len() as int);
    lemma_len_subset(marked(vis), set_int_range(0, vis.len() as int));
}

proof fn lemma_mark_one(vis: Seq<bool>, w: int)
    requires
        0 <= w < vis.len(),
        !vis[w],
    ensures
        marked(vis.update(w, true)) == marked(vis).insert(w),
        marked(vis.update(w, true)).len() == marked(vis).len() + 1,
{
    lemma_marked_bound(vis);
    assert(marked(vis.update(w, true)) =~= marked(vis).insert(w));
}

/// A walk that starts on a marked vertex stays on marked vertices, when every
/// neighbour of a marked vertex is marked.
proof fn lemma_walk_stays_marked(g: Seq<Vertex>, vis: Seq<bool>, level: Seq<int>, e: u32, p: Seq<u32>, i: int)
    requires
        well_formed(g),
        vis.len() == g.len(),
        is_walk(g, p),
        p[0] < g.len(),
        vis[p[0] as int],
        forall|u: u32| u < g.len() && #[trigger] vis[u as int] ==> closed(g, vis, level, e, u as int),
        0 <= i < p.len(),
    ensures
        p[i] < g.len(),
        vis[p[i] as int],
        p[i] != e || i == 0,
    decreases i,
{
    if i > 0 {
        lemma_walk_stays_marked(g, vis, level, e, p, i - 1);
        assert(edge(g, p[i - 1], p[i]));
        let nb = g[p[i - 1] as int]@;
        let k = choose|k: int| 0 <= k < nb.len() && #[trigger] nb[k] == p[i];
        assert(closed(g, vis, level, e, p[i - 1] as int));
    }
}

/// No walk leaves a set of marked vertices that holds `s` and not `e` and
/// holds every neighbour of its members, so none reaches `e`.
proof fn lemma_closed_set_blocks(g: Seq<Vertex>, vis: Seq<bool>, level: Seq<int>, s: u32, e: u32)
    requires
        well_formed(g),
        vis.len() == g.len(),
        s < g.len(),
        s != e,
        vis[s as int],
        forall|u: u32| u < g.len() && #[trigger] vis[u as int] ==> closed(g, vis, level, e, u as int),
    ensures
        !reachable(g, s, e),
{
    if reachable(g, s, e) {
        let p = choose|p: Seq<u32>| #[trigger] is_walk(g, p) && p[0] == s && p.last() == e;
        lemma_walk_stays_marked(g, vis, level, e, p, p.len() - 1);
    }
}

/// A walk of at most `f` edges from a marked vertex of level zero ends on a
/// marked vertex whose level is at most its number of edges, when every marked
/// vertex above level `f` is closed.
proof fn lemma_short_walk_marked(
    g: Seq<Vertex>,
    vis: Seq<bool>,
    level: Seq<int>,
    e: u32,
    f: int,
    p: Seq<u32>,
    i: int,
)
    requires
        well_formed(g),
        vis.len() == g.len(),
        is_walk(g, p),
        p[0] < g.len(),
        vis[p[0] as int],
        level[p[0] as int] == 0,
        forall|u: u32|
            u < g.len() && #[trigger] vis[u as int] && level[u as int] < f ==> closed(g, vis, level, e, u as int),
        0 <= i < p.len(),
        i <= f,
    ensures
        p[i] < g.len(),
        vis[p[i] as int],
        level[p[i] as int] <= i,
    decreases i,
{
    if i > 0 {
        lemma_short_walk_marked(g, vis, level, e, f, p, i - 1);
        assert(edge(g, p[i - 1], p[i]));
        let nb = g[p[i - 1] as int]@;
        let k = choose|k: int| 0 <= k < nb.len() && #[trigger] nb[k] == p[i];
        assert(closed(g, vis, level, e, p[i - 1] as int));
    }
}

/// When every marked vertex above level `f` is closed and `e` is unmarked,
/// every walk from `s` to `e` has more than `f + 1` vertices.
proof fn lemma_no_shorter_walk(g: Seq<Vertex>, vis: Seq<bool>, level: Seq<int>, s: u32, e: u32, f: int)
    requires
        well_formed(g),
        vis.len() == g.len(),
        s < g.len(),
        vis[s as int],
        level[s as int] == 0,
        !vis[e as int],
        forall|u: u32|
            u < g.len() && #[trigger] vis[u as int] && level[u as int] < f ==> closed(g, vis, level, e, u as int),
    ensures
        no_shorter_walk(g, s, e, f + 2),
{
    assert forall|p: Seq<u32>| #[trigger] is_walk(g, p) && p[0] == s && p.last() == e implies p.len() >= f + 2 by {
        if p.len() < f + 2 {
            lemma_short_walk_marked(g, vis, level, e, f, p, p.len() - 1);
        }
    }
}

/// What the search leaves behind: marks, predecessors and levels that lead
/// every marked vertex back to `s`, and, when `e` was seen, a predecessor of
/// `e` on a shortest walk; when it was not, proof that `e` is unreachable.
spec fn search_result(
    g: Seq<Vertex>,
    s: u32,
    e: u32,
    vis: Seq<bool>,
    prev: Seq<Option<u32>>,
    level: Seq<int>,
    found: bool,
) -> bool {
    &&& vis.len() == g.len()
    &&& prev.len() == g.len()
    &&& level.len() == g.len()
    &&& vis[s as int]
    &&& !vis[e as int]
    &&& prev[s as int] is None
    &&& level[s as int] == 0
    &&& forall|v: int| 0 <= v < g.len() ==> 0 <= #[trigger] level[v]
    &&& forall|v: int|
        0 <= v < g.len() && #[trigger] vis[v] && v != s ==> linked(g, vis, prev, level, v)
    &&& found ==> linked(g, vis, prev, level, e as int)
    &&& found ==> no_shorter_walk(g, s, e, level[e as int] + 1)
    &&& !found ==> prev[e as int] is None
    &&& !found ==> !reachable(g, s, e)
}

/// Explores breadth-first from `start_node` until `end_node` is seen as a
/// neighbour or nothing is left to explore, recording each vertex's
/// predecessor.
fn explore(graph: &Graph, start_node: u32, end_node: u32) -> (out: (
    Vec<Option<u32>>,
    bool,
    Ghost<Seq<bool>>,
    Ghost<Seq<int>>,
))
    requires
        well_formed(graph@),
        start_node < graph.len(),
        end_node < graph.len(),
        start_node != end_node,
    ensures
        search_result(graph@, start_node, end_node, out.2@, out.0@, out.3@, out.1),
{
    let ghost g = graph@;
    let n = graph.len();
    let mut queue: Queue<u32> = Queue::new();
    queue.enqueue(start_node);

    let mut visited_vertices: Vec<bool> = Vec::new();
    let mut prev: Vec<Option<u32>> = Vec::new();
    let mut i: usize = 0;
    while i < n
        invariant
            i <= n,
            visited_vertices@ =~= Seq::new(i as nat, |_k: int| false),
            prev@ =~= Seq::new(i as nat, |_k: int| None::<u32>),
        decreases n - i,
    {
        visited_vertices.push(false);
        prev.push(None);
        i += 1;
    }
    visited_vertices.set(start_node as usize, true);

    let ghost mut level: Seq<int> = Seq::new(n as nat, |_k: int| 0int);
    let ghost mut frontier: int = 0;
    let mut found = false;
    proof {
        lemma_marked_bound(visited_vertices@);
        assert(queue@[0] == start_node);
        assert forall|u: u32|
            u < n && #[trigger] visited_vertices@[u as int] && !queue@.contains(u) implies closed(
            g,
            visited_vertices@,
            level,
            end_node,
            u as int,
        ) && level[u as int] <= frontier by {
            assert(u == start_node);
        }
    }
    while !found && !queue.is_empty()
        invariant
            g == graph@,
            n == graph.len(),
            well_formed(g),
            start_node < n,
            end_node < n,
            start_node != end_node,
            visited_vertices.len() == n,
            prev.len() == n,
            level.len() == n,
            0 <= frontier,
            visited_vertices@[start_node as int],
            !visited_vertices@[end_node as int],
            prev@[start_node as int] is None,
            level[start_node as int] == 0,
            forall|k: int| 0 <= k < queue@.len() ==> #[trigger] queue@[k] < n && visited_vertices@[queue@[k] as int],
            forall|a: int, b: int|
                0 <= a < b < queue@.len() ==> level[#[trigger] queue@[a] as int] <= level[#[trigger] queue@[b] as int],
            forall|k: int|
                0 <= k < queue@.len() ==> frontier <= level[#[trigger] queue@[k] as int] <= frontier + 1,
            forall|v: int| 0 <= v < n ==> 0 <= #[trigger] level[v],
            forall|v: int| 0 <= v < n && visited_vertices@[v] ==> #[trigger] level[v] <= frontier + 1,
            forall|v: int|
                0 <= v < n && #[trigger] visited_vertices@[v] && v != start_node ==> linked(
                    g,
                    visited_vertices@,
                    prev@,
                    level,
                    v,
                ),
            found ==> linked(g, visited_vertices@, prev@, level, end_node as int),
            found ==> no_shorter_walk(g, start_node, end_node, level[end_node as int] + 1),
            !found ==> prev@[end_node as int] is None,
            !found ==> forall|u: u32|
                u < n && #[trigger] visited_vertices@[u as int] && !queue@.contains(u) ==> closed(
                    g,
                    visited_vertices@,
                    level,
                    end_node,
                    u as int,
                ) && level[u as int] <= frontier,
            marked(visited_vertices@).finite(),
            marked(visited_vertices@).len() <= n,
        decreases 2 * (n - marked(visited_vertices@).len()) + queue@.len(),
    {
        let ghost m0 = 2 * (n - marked(visited_vertices@).len()) + queue@.len();
        let ghost q0 = queue@;
        let ghost f0 = frontier;
        let current_node = queue.dequeue();
        proof {
            assert(q0[0] == current_node);
            frontier = level[current_node as int];
            assert forall|a: int, b: int|
                0 <= a < b < queue@.len() implies level[#[trigger] queue@[a] as int] <= level[#[trigger] queue@[b] as int] by {
                assert(queue@[a] == q0[a + 1] && queue@[b] == q0[b + 1]);
            }
            assert forall|k: int| 0 <= k < queue@.len() implies frontier <= level[#[trigger] queue@[k] as int] <= frontier + 1 by {
                assert(queue@[k] == q0[k + 1]);
                assert(level[q0[0] as int] <= level[q0[k + 1] as int]);
            }
            assert forall|u: u32|
                u < n && #[trigger] visited_vertices@[u as int] && !queue@.contains(u) && u
                    != current_node implies closed(g, visited_vertices@, level, end_node, u as int)
                && level[u as int] <= frontier by {
                if q0.contains(u) {
                    let i = choose|i: int| 0 <= i < q0.len() && q0[i] == u;
                    assert(queue@[i - 1] == u);
                }
            }
        }
        let neighbours = &graph[current_node as usize];
        let mut k: usize = 0;
        while !found && k < neighbours.len()
            invariant
                g == graph@,
                n == graph.len(),
                well_formed(g),
                neighbours@ == g[current_node as int]@,
                current_node < n,
                visited_vertices@[current_node as int],
                level[current_node as int] == frontier,
                k <= neighbours.len(),
                start_node < n,
                end_node < n,
                start_node != end_node,
                visited_vertices.len() == n,
                prev.len() == n,
                level.len() == n,
                0 <= frontier,
                visited_vertices@[start_node as int],
                !visited_vertices@[end_node as int],
                prev@[start_node as int] is None,
                level[start_node as int] == 0,
                forall|j: int| 0 <= j < queue@.len() ==> #[trigger] queue@[j] < n && visited_vertices@[queue@[j] as int],
                forall|a: int, b: int|
                    0 <= a < b < queue@.len() ==> level[#[trigger] queue@[a] as int] <= level[#[trigger] queue@[b] as int],
                forall|j: int|
                    0 <= j < queue@.len() ==> frontier <= level[#[trigger] queue@[j] as int] <= frontier + 1,
                forall|v: int| 0 <= v < n ==> 0 <= #[trigger] level[v],
                forall|v: int| 0 <= v < n && visited_vertices@[v] ==> #[trigger] level[v] <= frontier + 1,
                forall|v: int|
                    0 <= v < n && #[trigger] visited_vertices@[v] && v != start_node ==> linked(
                        g,
                        visited_vertices@,
                        prev@,
                        level,
                        v,
                    ),
                found ==> linked(g, visited_vertices@, prev@, level, end_node as int),
                found ==> no_shorter_walk(g, start_node, end_node, level[end_node as int] + 1),
                !found ==> prev@[end_node as int] is None,
                !found ==> forall|u: u32|
                    u < n && #[trigger] visited_vertices@[u as int] && !queue@.contains(u) && u
                        != current_node ==> closed(g, visited_vertices@, level, end_node, u as int)
                        && level[u as int] <= frontier,
                !found ==> forall|j: int|
                    0 <= j < k ==> {
                        &&& visited_vertices@[#[trigger] neighbours@[j] as int]
                        &&& neighbours@[j] != end_node
                        &&& level[neighbours@[j] as int] <= frontier + 1
                    },
                marked(visited_vertices@).finite(),
                marked(visited_vertices@).len() <= n,
                2 * (n - marked(visited_vertices@).len()) + queue@.len() < m0,
            decreases neighbours.len() - k + (if found { 0int } else { 1int }),
        {
            let v = neighbours[k];
            assert(g[current_node as int]@[k as int] == v);
            if v == end_node {
                proof {
                    assert forall|u: u32|
                        u < n && #[trigger] visited_vertices@[u as int] && level[u as int] < frontier implies closed(
                        g,
                        visited_vertices@,
                        level,
                        end_node,
                        u as int,
                    ) by {
                        if queue@.contains(u) {
                            let j = choose|j: int| 0 <= j < queue@.len() && queue@[j] == u;
                            assert(frontier <= level[queue@[j] as int]);
                        }
                    }
                    lemma_no_shorter_walk(g, visited_vertices@, level, start_node, end_node, frontier);
                }
                let ghost level0 = level;
                let ghost prev0 = prev@;
                prev.set(v as usize, Some(current_node));
                proof {
                    level = level.update(v as int, frontier + 1);
                    assert(g[current_node as int]@.contains(v));
                    assert forall|w: int|
                        0 <= w < n && #[trigger] visited_vertices@[w] && w != start_node implies linked(
                        g,
                        visited_vertices@,
                        prev@,
                        level,
                        w,
                    ) by {
                        assert(linked(g, visited_vertices@, prev0, level0, w));
                    }
                }
                found = true;
            } else if !visited_vertices[v as usize] {
                let ghost vis0 = visited_vertices@;
                let ghost qb = queue@;
                let ghost level0 = level;
                queue.enqueue(v);
                visited_vertices.set(v as usize, true);
                prev.set(v as usize, Some(current_node));
                proof {
                    lemma_mark_one(vis0, v as int);
                    lemma_marked_bound(visited_vertices@);
                    level = level.update(v as int, frontier + 1);
                    assert(g[current_node as int]@.contains(v));
                    assert(queue@[queue@.len() - 1] == v);
                    assert forall|a: int, b: int|
                        0 <= a < b < queue@.len() implies level[#[trigger] queue@[a] as int] <= level[#[trigger] queue@[b] as int] by {
                        assert(qb.len() + 1 == queue@.len());
                        if b < qb.len() {
                            assert(queue@[a] == qb[a] && queue@[b] == qb[b]);
                            assert(qb[a] != v && qb[b] != v);
                        } else {
                            assert(queue@[a] == qb[a]);
                            assert(qb[a] != v);
                        }
                    }
                    assert forall|j: int| 0 <= j < queue@.len() implies frontier <= level[#[trigger] queue@[j] as int] <= frontier + 1 by {
                        if j < qb.len() {
                            assert(queue@[j] == qb[j]);
                            assert(qb[j] != v);
                        }
                    }
                    assert forall|u: u32|
                        u < n && #[trigger] visited_vertices@[u as int] && !queue@.contains(u)
                            && u != current_node implies closed(g, visited_vertices@, level, end_node, u as int)
                            && level[u as int] <= frontier by {
                        assert(u != v);
                        assert(!qb.contains(u)) by {
                            if qb.contains(u) {
                                let j = choose|j: int| 0 <= j < qb.len() && qb[j] == u;
                                assert(queue@[j] == u);
                            }
                        }
                        assert(closed(g, vis0, level0, end_node, u as int));
                    }
                }
            }
            k += 1;
        }
        proof {
            if !found {
                assert forall|u: u32|
                    u < n && #[trigger] visited_vertices@[u as int] && !queue@.contains(u) implies closed(
                    g,
                    visited_vertices@,
                    level,
                    end_node,
                    u as int,
                ) && level[u as int] <= frontier by {
                    if u == current_node {
                        assert forall|j: int| 0 <= j < g[u as int]@.len() implies {
                            &&& visited_vertices@[#[trigger] g[u as int]@[j] as int]
                            &&& g[u as int]@[j] != end_node
                            &&& level[g[u as int]@[j] as int] <= level[u as int] + 1
                        } by {
                            assert(neighbours@[j] == g[u as int]@[j]);
                        }
                    }
                }
            }
        }
    }
    proof {
        if !found {
            lemma_closed_set_blocks(g, visited_vertices@, level, start_node, end_node);
        }
    }

    (prev, found, Ghost(visited_vertices@), Ghost(level))
}

/// Searches breadth-first from `start_node` and returns a path with the
/// fewest edges to `end_node`, listed from the first vertex to the last, or
/// `None` when no walk leads there. The search stops as soon as `end_node`
/// is seen as a neighbour.
pub fn bfs(graph: Graph, start_node: u32, end_node: u32) -> (r: Option<Vec<Option<u32>>>)
    requires
        well_formed(graph@),
        start_node < graph.len(),
        end_node < graph.len(),
    ensures
        match r {
            Some(p) => {
                &&& is_simple_path(graph@, p@, start_node, end_node)
                &&& no_shorter_walk(graph@, start_node, end_node, p@.len() as int)
            },
            None => !reachable(graph@, start_node, end_node),
        },
{
    let ghost g = graph@;
    let n = graph.len();
    if start_node == end_node {
        let path = vec![Some(start_node)];
        assert(vertices(path@) =~= seq![start_node]);
        return Some(path);
    }
    let (prev, found, Ghost(visited), Ghost(level)) = explore(&graph, start_node, end_node);
    let mut path: Vec<Option<u32>> = Vec::new();
    let mut at: Option<u32> = Some(end_node);
    while at.is_some()
        invariant
            g == graph@,
            n == graph.len(),
            start_node < n,
            end_node < n,
            start_node != end_node,
            visited.len() == n,
            prev.len() == n,
            level.len() == n,
            visited[start_node as int],
            !visited[end_node as int],
            prev@[start_node as int] is None,
            forall|v: int| 0 <= v < n ==> 0 <= #[trigger] level[v],
            forall|v: int|
                0 <= v < n && #[trigger] visited[v] && v != start_node ==> linked(
                    g,
                    visited,
                    prev@,
                    level,
                    v,
                ),
            found ==> linked(g, visited, prev@, level, end_node as int),
            found ==> no_shorter_walk(g, start_node, end_node, level[end_node as int] + 1),
            path.len() > 0 ==> path.len() + level[vertices(path@).last() as int] == level[end_node as int] + 1,
            !found ==> prev@[end_node as int] is None,
            forall|j: int| 0 <= j < path.len() ==> (#[trigger] path@[j]) is Some,
            path.len() > 0 ==> path@[0] == Some(end_node),
            !found && path.len() > 0 ==> path.len() == 1,
            forall|j: int|
                0 <= j < path.len() ==> #[trigger] vertices(path@)[j] < n && (vertices(path@)[j]
                    == end_node || visited[vertices(path@)[j] as int]),
            forall|j: int|
                0 <= j < path.len() - 1 ==> edge(g, vertices(path@)[j + 1], #[trigger] vertices(path@)[j]),
            forall|a: int, b: int|
                0 <= a < b < path.len() ==> level[#[trigger] vertices(path@)[b] as int] < level[#[trigger] vertices(
                    path@,
                )[a] as int],
            match at {
                Some(x) => {
                    &&& x < n
                    &&& (x == end_node || visited[x as int])
                    &&& path.len() == 0 ==> x == end_node
                    &&& path.len() + level[x as int] == level[end_node as int]
                    &&& path.len() > 0 ==> {
                        &&& edge(g, x, vertices(path@).last())
                        &&& level[x as int] < level[vertices(path@).last() as int]
                        &&& prev@[vertices(path@).last() as int] == Some(x)
                    }
                },
                None => path.len() > 0 && prev@[vertices(path@).last() as int] is None,
            },
        decreases
            match at {
                Some(x) => level[x as int] + 1,
                None => 0,
            },
    {
        let x = at.unwrap();
        let ghost before = path@;
        path.push(at);
        at = prev[x as usize];
        proof {
            assert(vertices(path@) =~= vertices(before).push(x));
            if before.len() > 0 {
                assert(vertices(before).last() == vertices(before)[before.len() - 1]);
            }
        }
    }
    let ghost vp = vertices(path@);
    proof {
        if found {
            let last = vp.last();
            assert(vp[path.len() - 1] == last);
            if last != start_node {
                if last == end_node {
                } else {
                    assert(linked(g, visited, prev@, level, last as int));
                }
            }
        }
    }

    let mut reversed: Vec<Option<u32>> = Vec::new();
    let mut j: usize = path.len();
    while j > 0
        invariant
            j <= path.len(),
            reversed.len() == path.len() - j,
            forall|t: int| 0 <= t < reversed.len() ==> #[trigger] reversed@[t] == path@[path.len() - 1 - t],
        decreases j,
    {
        j -= 1;
        reversed.push(path[j]);
    }
    match reversed[0] {
        Some(x) if x == start_node => {
            proof {
                let vr = vertices(reversed@);
                let len = path.len() as int;
                assert forall|t: int| 0 <= t < len implies #[trigger] vr[t] == vp[len - 1 - t] by {
                    assert(reversed@[t] == path@[len - 1 - t]);
                }
                assert forall|t: int| 0 <= t < vr.len() - 1 implies edge(g, #[trigger] vr[t], vr[t + 1]) by {
                    assert(vr[t] == vp[len - 1 - t]);
                    assert(vr[t + 1] == vp[len - 2 - t]);
                    assert(vp[len - 2 - t] == vertices(path@)[len - 2 - t]);
                }
                assert(vr.last() == vr[len - 1]);
                assert(vr[len - 1] == vp[0]);
                assert(vr.no_duplicates()) by {
                    assert forall|a: int, b: int| 0 <= a < vr.len() && 0 <= b < vr.len() && a != b implies vr[a] != vr[b] by {
                        assert(vr[a] == vp[len - 1 - a]);
                        assert(vr[b] == vp[len - 1 - b]);
                        if a < b {
                            assert(level[vertices(path@)[len - 1 - a] as int] < level[vertices(path@)[len - 1 - b] as int]);
                        } else {
                            assert(level[vertices(path@)[len - 1 - b] as int] < level[vertices(path@)[len - 1 - a] as int]);
                        }
                    }
                }
            }
            Some(reversed)
        },
        _ => {
            proof {
                assert(reversed@[0] == path@[path.len() - 1]);
                assert(vp.last() == vp[path.len() - 1]);
            }
            None
        },
    }
}

} // verus!
