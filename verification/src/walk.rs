//! The order in which the vertices of a graph are visited: every vertex from
//! which a chosen vertex can be reached, each after the vertices that it
//! depends on.

use crate::graph::{closed_under_sources, Edge, Graph};
use vstd::prelude::*;

verus! {

/// Whether `incoming` holds an edge from `u` to `v`.
pub open spec fn has_edge<I>(incoming: Seq<Seq<Edge<I>>>, u: int, v: int) -> bool {
    &&& 0 <= v < incoming.len()
    &&& exists|k: int| 0 <= k < incoming[v].len() && (#[trigger] incoming[v][k]).source == u
}

/// Whether `path` leads along the edges of `incoming`: it holds at least one
/// vertex, and there is an edge from each of its vertices to the next.
pub open spec fn is_path<I>(incoming: Seq<Seq<Edge<I>>>, path: Seq<int>) -> bool {
    &&& path.len() > 0
    &&& forall|i: int| 0 <= i < path.len() ==> 0 <= #[trigger] path[i] < incoming.len()
    &&& forall|i: int|
        0 <= i < path.len() - 1 ==> has_edge(incoming, #[trigger] path[i], path[i + 1])
}

/// Whether `v` can be reached from `u` along the edges of `incoming`. Every
/// vertex reaches itself.
pub open spec fn reaches<I>(incoming: Seq<Seq<Edge<I>>>, u: int, v: int) -> bool {
    exists|path: Seq<int>|
        #[trigger] is_path(incoming, path) && path.first() == u && path.last() == v
}

/// Whether no path of one edge or more comes back to where it began.
pub open spec fn acyclic<I>(incoming: Seq<Seq<Edge<I>>>) -> bool {
    forall|path: Seq<int>|
        #[trigger] is_path(incoming, path) && path.len() > 1 ==> path.first() != path.last()
}

/// Whether `u` stands in `order` before position `i`.
pub open spec fn precedes(order: Seq<usize>, u: int, i: int) -> bool {
    exists|j: int| 0 <= j < i && #[trigger] order[j] == u
}

/// Whether `v` stands in `order`.
pub open spec fn visits(order: Seq<usize>, v: int) -> bool {
    precedes(order, v, order.len() as int)
}

/// Whether `order` is a visiting order for `root`.
///
/// It holds each vertex that reaches `root` once, and no other, with `root`
/// itself last. Every edge toward a vertex in it comes from a vertex that
/// stands earlier, unless the edge lies on a cycle.
pub open spec fn is_visit_order<I>(
    incoming: Seq<Seq<Edge<I>>>,
    root: int,
    order: Seq<usize>,
) -> bool {
    &&& order.no_duplicates()
    &&& order.len() > 0
    &&& order.last() == root
    &&& forall|i: int| 0 <= i < order.len() ==> #[trigger] order[i] < incoming.len()
    &&& forall|v: int|
        0 <= v < incoming.len() ==> (#[trigger] reaches(incoming, v, root) <==> visits(order, v))
    &&& forall|i: int, k: int|
        0 <= i < order.len() && 0 <= k < incoming[order[i] as int].len() ==> {
            let u = (#[trigger] incoming[order[i] as int][k]).source;
            precedes(order, u as int, i) || reaches(incoming, order[i] as int, u as int)
        }
}

/// Every vertex reaches itself.
pub proof fn lemma_reaches_self<I>(incoming: Seq<Seq<Edge<I>>>, v: int)
    requires
        0 <= v < incoming.len(),
    ensures
        reaches(incoming, v, v),
{
    let path = seq![v];
    assert(is_path(incoming, path));
}

/// A path from `u` to `v` and a path from `v` to `w` make a path from `u` to
/// `w`.
pub proof fn lemma_reaches_trans<I>(incoming: Seq<Seq<Edge<I>>>, u: int, v: int, w: int)
    requires
        reaches(incoming, u, v),
        reaches(incoming, v, w),
    ensures
        reaches(incoming, u, w),
{
    let p = choose|p: Seq<int>| #[trigger] is_path(incoming, p) && p.first() == u && p.last() == v;
    let q = choose|q: Seq<int>| #[trigger] is_path(incoming, q) && q.first() == v && q.last() == w;
    lemma_join(incoming, p, q);
}

/// Two paths, the second from where the first ends, make one path.
pub proof fn lemma_join<I>(incoming: Seq<Seq<Edge<I>>>, p: Seq<int>, q: Seq<int>)
    requires
        is_path(incoming, p),
        is_path(incoming, q),
        p.last() == q.first(),
    ensures
        is_path(incoming, p + q.skip(1)),
        (p + q.skip(1)).first() == p.first(),
        (p + q.skip(1)).last() == q.last(),
        (p + q.skip(1)).len() == p.len() + q.len() - 1,
{
}

/// An edge is a path.
pub proof fn lemma_edge_reaches<I>(incoming: Seq<Seq<Edge<I>>>, u: int, v: int)
    requires
        0 <= u < incoming.len(),
        has_edge(incoming, u, v),
    ensures
        reaches(incoming, u, v),
{
    let path = seq![u, v];
    assert(is_path(incoming, path));
}

/// The number of vertices that `visited` does not mark.
spec fn unvisited(visited: Seq<bool>) -> nat
    decreases visited.len(),
{
    if visited.len() == 0 {
        0
    } else {
        unvisited(visited.drop_last()) + if visited.last() {
            0nat
        } else {
            1nat
        }
    }
}

/// Marking one more vertex leaves fewer of them unmarked.
proof fn lemma_unvisited_less(a: Seq<bool>, u: int)
    requires
        0 <= u < a.len(),
        !a[u],
    ensures
        unvisited(a.update(u, true)) < unvisited(a),
    decreases a.len(),
{
    let b = a.update(u, true);
    if u == a.len() - 1 {
        assert(b.drop_last() =~= a.drop_last());
    } else {
        assert(b.drop_last() =~= a.drop_last().update(u, true));
        lemma_unvisited_less(a.drop_last(), u);
    }
}

/// A vertex that a walk has entered and not yet left: the vertex, and how
/// many of the edges toward it the walk has followed.
pub(crate) struct Frame {
    pub(crate) vertex: usize,
    pub(crate) next: usize,
}

/// Whether `v` is one of the vertices that the walk has entered and not yet
/// left.
spec fn on_stack(stack: Seq<Frame>, v: int) -> bool {
    exists|p: int| 0 <= p < stack.len() && (#[trigger] stack[p]).vertex == v
}

/// What holds of the marks, the stack and the order while a graph is walked
/// toward `root`.
///
/// The stack is a path back from `root`; its vertices are marked, distinct,
/// and not yet in the order. Every marked vertex is on the stack or in the
/// order. Every vertex in the order stands there once; each edge toward it
/// comes from a marked vertex, and from one that stands earlier unless the
/// edge lies on a cycle.
spec fn walking<I>(
    incoming: Seq<Seq<Edge<I>>>,
    root: int,
    visited: Seq<bool>,
    stack: Seq<Frame>,
    order: Seq<usize>,
) -> bool {
    &&& visited.len() == incoming.len()
    &&& 0 <= root < incoming.len()
    &&& visited[root]
    &&& order.no_duplicates()
    &&& forall|i: int|
        0 <= i < order.len() ==> {
            &&& (#[trigger] order[i]) < incoming.len()
            &&& visited[order[i] as int]
            &&& reaches(incoming, order[i] as int, root)
        }
    &&& forall|i: int, k: int|
        0 <= i < order.len() && 0 <= k < incoming[order[i] as int].len() ==> {
            let u = (#[trigger] incoming[order[i] as int][k]).source;
            &&& visited[u as int]
            &&& precedes(order, u as int, i) || reaches(incoming, order[i] as int, u as int)
        }
    &&& forall|p: int|
        0 <= p < stack.len() ==> {
            &&& (#[trigger] stack[p]).vertex < incoming.len()
            &&& visited[stack[p].vertex as int]
            &&& stack[p].next <= incoming[stack[p].vertex as int].len()
            &&& !visits(order, stack[p].vertex as int)
        }
    &&& forall|p: int, q: int|
        0 <= q < p < stack.len() ==> (#[trigger] stack[p]).vertex != (#[trigger] stack[q]).vertex
    &&& forall|p: int, q: int|
        0 <= q <= p < stack.len() ==> reaches(
            incoming,
            (#[trigger] stack[p]).vertex as int,
            (#[trigger] stack[q]).vertex as int,
        )
    &&& forall|p: int, j: int|
        0 <= p < stack.len() && 0 <= j < stack[p].next ==> visited[(
        #[trigger] incoming[stack[p].vertex as int][j]).source as int]
    &&& forall|x: int|
        0 <= x < incoming.len() && #[trigger] visited[x] ==> visits(order, x) || on_stack(stack, x)
    &&& stack.len() > 0 ==> stack[0].vertex == root
    &&& stack.len() == 0 ==> order.len() > 0 && order.last() == root
}

/// A set of vertices that holds `root`, and the source of every edge toward
/// one of its own, holds every vertex that reaches `root`.
proof fn lemma_sources_closed<I>(
    incoming: Seq<Seq<Edge<I>>>,
    held: Set<int>,
    root: int,
    path: Seq<int>,
)
    requires
        held.contains(root),
        forall|u: int, v: int| held.contains(v) && has_edge(incoming, u, v) ==> held.contains(u),
        is_path(incoming, path),
        path.last() == root,
    ensures
        held.contains(path.first()),
    decreases path.len(),
{
    if path.len() > 1 {
        let rest = path.skip(1);
        lemma_sources_closed(incoming, held, root, rest);
    }
}

/// A walk that has left every vertex it entered has found a visiting order.
proof fn lemma_walk_done<I>(
    incoming: Seq<Seq<Edge<I>>>,
    root: int,
    visited: Seq<bool>,
    order: Seq<usize>,
)
    requires
        closed_under_sources(incoming),
        walking(incoming, root, visited, Seq::<Frame>::empty(), order),
    ensures
        is_visit_order(incoming, root, order),
        forall|v: int| 0 <= v < incoming.len() ==> (visited[v] <==> visits(order, v)),
{
    let held = Set::new(|x: int| visits(order, x));
    assert forall|v: int| 0 <= v < incoming.len() implies (#[trigger] reaches(incoming, v, root)
        <==> visits(order, v)) by {
        if reaches(incoming, v, root) {
            let path = choose|path: Seq<int>| #[trigger]
                is_path(incoming, path) && path.first() == v && path.last() == root;
            lemma_sources_closed(incoming, held, root, path);
        }
    }
}

/// The walk may begin: only `root` is marked and entered.
proof fn lemma_walk_begins<I>(incoming: Seq<Seq<Edge<I>>>, root: usize, visited: Seq<bool>)
    requires
        root < incoming.len(),
        visited.len() == incoming.len(),
        forall|x: int| 0 <= x < visited.len() ==> (visited[x] <==> x == root),
    ensures
        walking(
            incoming,
            root as int,
            visited,
            seq![Frame { vertex: root, next: 0 }],
            Seq::<usize>::empty(),
        ),
{
    let stack = seq![Frame { vertex: root, next: 0 }];
    lemma_reaches_self(incoming, root as int);
    assert(stack[0].vertex == root);
}

/// The walk follows an edge into `u`, which it had not marked yet.
proof fn lemma_walk_enters<I>(
    incoming: Seq<Seq<Edge<I>>>,
    root: int,
    visited: Seq<bool>,
    stack: Seq<Frame>,
    order: Seq<usize>,
)
    requires
        closed_under_sources(incoming),
        walking(incoming, root, visited, stack, order),
        stack.len() > 0,
        stack.last().next < incoming[stack.last().vertex as int].len(),
        !visited[incoming[stack.last().vertex as int][stack.last().next as int].source as int],
    ensures
        ({
            let v = stack.last().vertex;
            let k = stack.last().next;
            let u = incoming[v as int][k as int].source;
            walking(
                incoming,
                root,
                visited.update(u as int, true),
                stack.update(stack.len() - 1, Frame { vertex: v, next: (k + 1) as usize }).push(
                    Frame { vertex: u, next: 0 },
                ),
                order,
            )
        }),
{
    let top = stack.len() - 1;
    let v = stack[top].vertex;
    let k = stack[top].next;
    let u = incoming[v as int][k as int].source;
    let marks = visited.update(u as int, true);
    let grown = stack.update(top, Frame { vertex: v, next: (k + 1) as usize }).push(
        Frame { vertex: u, next: 0 },
    );
    lemma_edge_reaches(incoming, u as int, v as int);
    lemma_reaches_self(incoming, u as int);
    assert forall|p: int, q: int| 0 <= q <= p < grown.len() implies reaches(
        incoming,
        (#[trigger] grown[p]).vertex as int,
        (#[trigger] grown[q]).vertex as int,
    ) by {
        if p == stack.len() && q < stack.len() {
            lemma_reaches_trans(incoming, u as int, v as int, stack[q].vertex as int);
        }
    }
    assert forall|x: int| 0 <= x < incoming.len() && #[trigger] marks[x] implies visits(order, x)
        || on_stack(grown, x) by {
        if x == u {
            assert(grown[grown.len() - 1].vertex == x);
        } else if on_stack(stack, x) {
            let p = choose|p: int| 0 <= p < stack.len() && (#[trigger] stack[p]).vertex == x;
            assert(grown[p].vertex == x);
        }
    }
}

/// The walk passes over an edge from a vertex that it had marked before.
proof fn lemma_walk_passes<I>(
    incoming: Seq<Seq<Edge<I>>>,
    root: int,
    visited: Seq<bool>,
    stack: Seq<Frame>,
    order: Seq<usize>,
)
    requires
        walking(incoming, root, visited, stack, order),
        stack.len() > 0,
        stack.last().next < incoming[stack.last().vertex as int].len(),
        visited[incoming[stack.last().vertex as int][stack.last().next as int].source as int],
    ensures
        walking(
            incoming,
            root,
            visited,
            stack.update(
                stack.len() - 1,
                Frame { vertex: stack.last().vertex, next: (stack.last().next + 1) as usize },
            ),
            order,
        ),
{
    let top = stack.len() - 1;
    let v = stack[top].vertex;
    let k = stack[top].next;
    let moved = stack.update(top, Frame { vertex: v, next: (k + 1) as usize });
    assert forall|x: int| 0 <= x < incoming.len() && #[trigger] visited[x] implies visits(order, x)
        || on_stack(moved, x) by {
        if on_stack(stack, x) {
            let p = choose|p: int| 0 <= p < stack.len() && (#[trigger] stack[p]).vertex == x;
            assert(moved[p].vertex == x);
        }
    }
}

/// The walk has followed every edge toward the vertex it entered last, and
/// leaves it: the vertex joins the order.
proof fn lemma_walk_leaves<I>(
    incoming: Seq<Seq<Edge<I>>>,
    root: int,
    visited: Seq<bool>,
    stack: Seq<Frame>,
    order: Seq<usize>,
)
    requires
        closed_under_sources(incoming),
        walking(incoming, root, visited, stack, order),
        stack.len() > 0,
        stack.last().next == incoming[stack.last().vertex as int].len(),
    ensures
        walking(incoming, root, visited, stack.drop_last(), order.push(stack.last().vertex)),
{
    let top = stack.len() - 1;
    let v = stack[top].vertex;
    let rest = stack.drop_last();
    let grown = order.push(v);
    assert forall|x: int| visits(order, x) implies visits(grown, x) by {
        let i = choose|i: int| 0 <= i < order.len() && #[trigger] order[i] == x;
        assert(grown[i] == x);
    }
    assert(visits(grown, v as int)) by {
        assert(grown[order.len() as int] == v);
    }
    assert forall|x: int| 0 <= x < incoming.len() && #[trigger] visited[x] implies visits(grown, x)
        || on_stack(rest, x) by {
        if on_stack(stack, x) {
            let p = choose|p: int| 0 <= p < stack.len() && (#[trigger] stack[p]).vertex == x;
            if p < top {
                assert(rest[p].vertex == x);
            }
        }
    }
}

/// Fills `order` with a visiting order for `root`: every vertex that reaches
/// `root`, each after the sources of its edges, and `root` last.
///
/// What `visited`, `stack` and `order` held before is dropped. In the end
/// `visited` marks the vertices in `order`, and no other, and `stack` is
/// empty.
pub(crate) fn visit_order_into<T, I>(
    graph: &Graph<T, I>,
    root: usize,
    visited: &mut Vec<bool>,
    stack: &mut Vec<Frame>,
    order: &mut Vec<usize>,
)
    requires
        graph.wf(),
        root < graph@.len(),
    ensures
        is_visit_order(graph@.incoming, root as int, final(order)@),
        final(visited)@.len() == graph@.len(),
        forall|v: int| 0 <= v < graph@.len() ==> (final(visited)@[v] <==> visits(final(order)@, v)),
        final(stack)@.len() == 0,
{
    let ghost incoming = graph@.incoming;
    let n = graph.node_count();
    visited.clear();
    stack.clear();
    order.clear();
    let mut i: usize = 0;
    while i < n
        invariant
            i <= n,
            visited@.len() == i,
            forall|j: int| 0 <= j < i ==> !visited@[j],
        decreases n - i,
    {
        visited.push(false);
        i += 1;
    }
    visited[root] = true;
    stack.push(Frame { vertex: root, next: 0 });
    proof {
        lemma_walk_begins(incoming, root, visited@);
    }
    while stack.len() > 0
        invariant
            graph.wf(),
            incoming == graph@.incoming,
            walking(incoming, root as int, visited@, stack@, order@),
        decreases
            unvisited(visited@),
            stack@.len(),
            if stack@.len() > 0 {
                incoming[stack@.last().vertex as int].len() - stack@.last().next
            } else {
                0
            },
    {
        let top = stack.len() - 1;
        let v = stack[top].vertex;
        let k = stack[top].next;
        if k < graph.in_degree(v) {
            let u = graph.edge(v, k).source;
            proof {
                if visited@[u as int] {
                    lemma_walk_passes(incoming, root as int, visited@, stack@, order@);
                } else {
                    lemma_walk_enters(incoming, root as int, visited@, stack@, order@);
                    lemma_unvisited_less(visited@, u as int);
                }
            }
            stack[top] = Frame { vertex: v, next: k + 1 };
            if !visited[u] {
                visited[u] = true;
                stack.push(Frame { vertex: u, next: 0 });
            }
        } else {
            proof {
                lemma_walk_leaves(incoming, root as int, visited@, stack@, order@);
            }
            stack.pop();
            order.push(v);
        }
    }
    proof {
        lemma_walk_done(incoming, root as int, visited@, order@);
    }
}

/// A visiting order for `root`: every vertex that reaches `root`, each after
/// the sources of its edges, and `root` last.
pub fn visit_order<T, I>(graph: &Graph<T, I>, root: usize) -> (order: Vec<usize>)
    requires
        graph.wf(),
        root < graph@.len(),
    ensures
        is_visit_order(graph@.incoming, root as int, order@),
{
    let mut visited: Vec<bool> = Vec::new();
    let mut stack: Vec<Frame> = Vec::new();
    let mut order: Vec<usize> = Vec::new();
    visit_order_into(graph, root, &mut visited, &mut stack, &mut order);
    order
}

/// A path from `b` to `c` and an edge from `c` back to `b` make a cycle.
pub proof fn lemma_edge_back_is_cycle<I>(incoming: Seq<Seq<Edge<I>>>, b: int, c: int)
    requires
        reaches(incoming, b, c),
        has_edge(incoming, c, b),
    ensures
        !acyclic(incoming),
{
    let there = choose|p: Seq<int>|
        #[trigger] is_path(incoming, p) && p.first() == b && p.last() == c;
    let round = there.push(b);
    assert(is_path(incoming, round) && round.len() > 1 && round.first() == round.last());
}

/// Whether every edge comes from a vertex with a lower number than the one
/// it leads to, as in a graph whose vertices were added sources first.
pub open spec fn edges_ascend<I>(incoming: Seq<Seq<Edge<I>>>) -> bool {
    forall|v: int, k: int|
        0 <= v < incoming.len() && 0 <= k < incoming[v].len() ==> (
        #[trigger] incoming[v][k]).source < v
}

/// Where every edge ascends, a path of one edge or more ends at a higher
/// number than it began.
proof fn lemma_path_ascends<I>(incoming: Seq<Seq<Edge<I>>>, path: Seq<int>)
    requires
        edges_ascend(incoming),
        is_path(incoming, path),
        path.len() > 1,
    ensures
        path.first() < path.last(),
    decreases path.len(),
{
    if path.len() > 2 {
        let front = path.drop_last();
        lemma_path_ascends(incoming, front);
    }
}

/// A graph in which every edge ascends has no cycle.
pub proof fn lemma_ascending_is_acyclic<I>(incoming: Seq<Seq<Edge<I>>>)
    requires
        edges_ascend(incoming),
    ensures
        acyclic(incoming),
{
    assert forall|path: Seq<int>| #[trigger]
        is_path(incoming, path) && path.len() > 1 implies path.first() != path.last() by {
        lemma_path_ascends(incoming, path);
    }
}

/// Along a path of one edge or more that ends at position `i` of a visiting
/// order, in a graph without cycles, the first vertex stands before `i`.
proof fn lemma_walk_precedes<I>(
    incoming: Seq<Seq<Edge<I>>>,
    root: int,
    order: Seq<usize>,
    path: Seq<int>,
    i: int,
)
    requires
        acyclic(incoming),
        is_visit_order(incoming, root, order),
        0 <= i < order.len(),
        is_path(incoming, path),
        path.len() > 1,
        path.last() == order[i],
    ensures
        precedes(order, path.first(), i),
    decreases path.len(),
{
    let b = order[i] as int;
    let c = path[path.len() - 2];
    if reaches(incoming, b, c) {
        lemma_edge_back_is_cycle(incoming, b, c);
    }
    let j = choose|j: int| 0 <= j < i && #[trigger] order[j] == c;
    if path.len() > 2 {
        let front = path.drop_last();
        lemma_walk_precedes(incoming, root, order, front, j);
    }
}

/// In a graph without cycles, a visiting order puts every vertex after all
/// the vertices from which it can be reached: if the vertex at position `j`
/// reaches the one at another position `i`, then `j` is before `i`.
pub proof fn lemma_ancestors_first<I>(
    incoming: Seq<Seq<Edge<I>>>,
    root: int,
    order: Seq<usize>,
    i: int,
    j: int,
)
    requires
        acyclic(incoming),
        is_visit_order(incoming, root, order),
        0 <= i < order.len(),
        0 <= j < order.len(),
        i != j,
        reaches(incoming, order[j] as int, order[i] as int),
    ensures
        j < i,
{
    let path = choose|path: Seq<int>| #[trigger]
        is_path(incoming, path) && path.first() == order[j] && path.last() == order[i];
    if path.len() > 1 {
        lemma_walk_precedes(incoming, root, order, path, i);
    }
}

} // verus!
