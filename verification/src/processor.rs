//! The engine that walks a graph for one block of audio.

use crate::graph::{from_other, gathered, seen_in, Edge, Graph, GraphView};
use crate::node::{InputView, Node};
use crate::walk::{
    acyclic, is_visit_order, lemma_edge_back_is_cycle, precedes, reaches, visit_order_into, visits,
    Frame,
};
use vstd::prelude::*;

verus! {

/// The outputs that the vertex at position `i` of `order` finds when its turn
/// comes: those of `after` for the vertices that stand before `i`, which
/// have had their turn, and those of `before` for all others.
pub open spec fn heard(
    before: Seq<Seq<Seq<i32>>>,
    after: Seq<Seq<Seq<i32>>>,
    order: Seq<usize>,
    i: int,
) -> Seq<Seq<Seq<i32>>> {
    Seq::new(
        before.len(),
        |u: int|
            if precedes(order, u, i) {
                after[u]
            } else {
                before[u]
            },
    )
}

/// Whether `after` is what a walk of `before` along `order` may leave.
///
/// The vertices and the edges stay, and so does the number of output buffers
/// of every vertex. A vertex that is not in `order` keeps its node and its
/// output. A vertex in `order` has processed once: its node, as it was before
/// the walk, was given the outputs of the sources of its edges as it found
/// them, and wrote what `after` holds for it. What the node keeps for its
/// next block is the node's own matter.
pub open spec fn processed<T: Node<I>, I>(
    before: GraphView<T, I>,
    after: GraphView<T, I>,
    order: Seq<usize>,
) -> bool {
    &&& after.incoming == before.incoming
    &&& after.nodes.len() == before.nodes.len()
    &&& after.outputs.len() == before.outputs.len()
    &&& forall|v: int|
        0 <= v < before.len() ==> (#[trigger] after.outputs[v]).len() == before.outputs[v].len()
    &&& forall|v: int|
        0 <= v < before.len() && !visits(order, v) ==> {
            &&& #[trigger] after.nodes[v] == before.nodes[v]
            &&& after.outputs[v] == before.outputs[v]
        }
    &&& forall|i: int|
        0 <= i < order.len() ==> before.nodes[(#[trigger] order[i]) as int].emits(
            gathered(
                before.incoming[order[i] as int],
                order[i] as int,
                heard(before.outputs, after.outputs, order, i),
            ),
            before.outputs[order[i] as int],
            after.outputs[order[i] as int],
        )
}

/// What a node is given to read depends only on the outputs of the sources
/// of its edges from other vertices.
pub proof fn lemma_gathered_agree<I>(
    edges: Seq<Edge<I>>,
    target: int,
    a: Seq<Seq<Seq<i32>>>,
    b: Seq<Seq<Seq<i32>>>,
)
    requires
        forall|k: int|
            0 <= k < edges.len() && (#[trigger] edges[k]).source != target ==> a[edges[k].source
                as int] == b[edges[k].source as int],
    ensures
        gathered(edges, target, a) == gathered(edges, target, b),
    decreases edges.len(),
{
    reveal(Seq::filter);
    if edges.len() > 0 {
        let front = edges.drop_last();
        let e = edges.last();
        lemma_gathered_agree(front, target, a, b);
        front.lemma_filter_push(e, from_other(target));
        if e.source != target {
            front.filter(from_other(target)).lemma_push_map_commute(seen_in(a), e);
            front.filter(from_other(target)).lemma_push_map_commute(seen_in(b), e);
        }
    }
}

/// The state of one walk: which vertices it has marked, and the order in
/// which it visits them.
///
/// A processor can be used for any number of walks; it keeps its memory
/// between them.
pub struct Processor {
    visited: Vec<bool>,
    stack: Vec<Frame>,
    order: Vec<usize>,
}

impl Processor {
    /// The order in which the last walk visited the vertices.
    pub closed spec fn view(&self) -> Seq<usize> {
        self.order@
    }

    /// A processor with room for a graph of `max_nodes` vertices.
    pub fn with_capacity(max_nodes: usize) -> (r: Self)
        ensures
            r@ == Seq::<usize>::empty(),
    {
        Processor {
            visited: Vec::with_capacity(max_nodes),
            stack: Vec::with_capacity(max_nodes),
            order: Vec::with_capacity(max_nodes),
        }
    }

    /// The order in which the last walk visited the vertices.
    pub fn order(&self) -> (r: &[usize])
        ensures
            r@ == self@,
    {
        self.order.as_slice()
    }

    /// Processes everything up to and including the vertex `node`: see
    /// [`process`].
    pub fn process<T: Node<I>, I: Copy>(&mut self, graph: &mut Graph<T, I>, node: usize)
        requires
            old(graph).wf(),
            node < old(graph)@.len(),
        ensures
            final(graph).wf(),
            is_visit_order(old(graph)@.incoming, node as int, final(self)@),
            processed(old(graph)@, final(graph)@, final(self)@),
    {
        process(self, graph, node)
    }
}

/// Processes everything up to and including the vertex `node`.
///
/// Every vertex from which `node` can be reached is visited once, each after
/// the sources of its edges where the graph has no cycle, and `node` last.
/// A visited vertex lets its node process one block, given one input for each
/// edge toward it from another vertex.
pub fn process<T: Node<I>, I: Copy>(processor: &mut Processor, graph: &mut Graph<T, I>, node: usize)
    requires
        old(graph).wf(),
        node < old(graph)@.len(),
    ensures
        final(graph).wf(),
        is_visit_order(old(graph)@.incoming, node as int, final(processor)@),
        processed(old(graph)@, final(graph)@, final(processor)@),
{
    let ghost before = graph@;
    visit_order_into(
        graph,
        node,
        &mut processor.visited,
        &mut processor.stack,
        &mut processor.order,
    );
    let ghost order = processor.order@;
    let mut k: usize = 0;
    while k < processor.order.len()
        invariant
            k <= order.len(),
            order == processor.order@,
            before.wf(),
            graph.wf(),
            is_visit_order(before.incoming, node as int, order),
            graph@.incoming == before.incoming,
            forall|v: int|
                0 <= v < before.len() ==> (#[trigger] graph@.outputs[v]).len()
                    == before.outputs[v].len(),
            forall|v: int|
                0 <= v < before.len() && !precedes(order, v, k as int) ==> {
                    &&& #[trigger] graph@.nodes[v] == before.nodes[v]
                    &&& graph@.outputs[v] == before.outputs[v]
                },
            forall|i: int|
                0 <= i < k ==> before.nodes[(#[trigger] order[i]) as int].emits(
                    gathered(
                        before.incoming[order[i] as int],
                        order[i] as int,
                        heard(before.outputs, graph@.outputs, order, i),
                    ),
                    before.outputs[order[i] as int],
                    graph@.outputs[order[i] as int],
                ),
        decreases order.len() - k,
    {
        let v = processor.order[k];
        let ghost held = graph@;
        graph.process_node(v);
        proof {
            let now = graph@;
            assert forall|i: int| 0 <= i < k + 1 implies before.nodes[(#[trigger] order[i])
                as int].emits(
                gathered(
                    before.incoming[order[i] as int],
                    order[i] as int,
                    heard(before.outputs, now.outputs, order, i),
                ),
                before.outputs[order[i] as int],
                now.outputs[order[i] as int],
            ) by {
                if i < k {
                    assert forall|u: int|
                        0 <= u < before.len() && precedes(order, u, i) implies now.outputs[u]
                        == held.outputs[u] by {
                        let j = choose|j: int| 0 <= j < i && #[trigger] order[j] == u;
                    }
                    assert(heard(before.outputs, now.outputs, order, i) =~= heard(
                        before.outputs,
                        held.outputs,
                        order,
                        i,
                    ));
                } else {
                    lemma_gathered_agree(
                        before.incoming[v as int],
                        v as int,
                        held.outputs,
                        heard(before.outputs, now.outputs, order, k as int),
                    );
                }
            }
            assert forall|x: int|
                0 <= x < before.len() && !precedes(order, x, k + 1) implies #[trigger] now.nodes[x]
                == before.nodes[x] && now.outputs[x] == before.outputs[x] by {
                assert(!precedes(order, x, k as int)) by {
                    if precedes(order, x, k as int) {
                        let j = choose|j: int| 0 <= j < k && #[trigger] order[j] == x;
                    }
                }
                assert(held.nodes[x] == before.nodes[x]);
            }
        }
        k += 1;
    }
}

/// In a graph without cycles, the node at every visited vertex is given the
/// final outputs of the sources of its edges: each of them had its turn
/// before.
pub proof fn lemma_processed_acyclic<T: Node<I>, I>(
    before: GraphView<T, I>,
    after: GraphView<T, I>,
    root: int,
    order: Seq<usize>,
    i: int,
)
    requires
        before.wf(),
        acyclic(before.incoming),
        is_visit_order(before.incoming, root, order),
        processed(before, after, order),
        0 <= i < order.len(),
    ensures
        before.nodes[order[i] as int].emits(
            gathered(before.incoming[order[i] as int], order[i] as int, after.outputs),
            before.outputs[order[i] as int],
            after.outputs[order[i] as int],
        ),
{
    let v = order[i] as int;
    let edges = before.incoming[v];
    assert forall|k: int| 0 <= k < edges.len() && (#[trigger] edges[k]).source != v implies heard(
        before.outputs,
        after.outputs,
        order,
        i,
    )[edges[k].source as int] == after.outputs[edges[k].source as int] by {
        let u = before.incoming[order[i] as int][k].source as int;
        if reaches(before.incoming, v, u) {
            lemma_edge_back_is_cycle(before.incoming, v, u);
        }
    }
    lemma_gathered_agree(edges, v, heard(before.outputs, after.outputs, order, i), after.outputs);
}

/// A vertex without edges toward it is given nothing to read.
pub proof fn lemma_source_hears_nothing<I>(
    edges: Seq<Edge<I>>,
    target: int,
    outputs: Seq<Seq<Seq<i32>>>,
)
    requires
        edges.len() == 0,
    ensures
        gathered(edges, target, outputs) == Seq::<InputView<I>>::empty(),
{
    reveal(Seq::filter);
}

} // verus!
