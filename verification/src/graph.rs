//! The graph that is walked: vertices that each hold a node and its output
//! buffers, and tagged edges between them.

use crate::buffer::{silent, Buffer};
use crate::node::{samples, views, Input, InputView, Node};
use vstd::prelude::*;

verus! {

/// The payload of a vertex: a node and the buffers that it writes.
///
/// The number of buffers is the number of output channels of the node, and is
/// fixed when the record is made.
pub struct NodeData<T> {
    pub buffers: Vec<Buffer>,
    pub node: T,
}

impl<T> NodeData<T> {
    /// A record of `node` and its output `buffers`.
    pub fn new(node: T, buffers: Vec<Buffer>) -> (r: Self)
        ensures
            r.node == node,
            r.buffers == buffers,
    {
        NodeData { buffers, node }
    }

    /// A record of `node` with `channels` silent output buffers.
    pub fn with_channels(node: T, channels: usize) -> (r: Self)
        ensures
            r.node == node,
            samples(r.buffers@) == Seq::new(channels as nat, |c: int| silent()),
    {
        let mut buffers: Vec<Buffer> = Vec::new();
        let mut c: usize = 0;
        while c < channels
            invariant
                c <= channels,
                buffers@.len() == c,
                forall|j: int| 0 <= j < c ==> (#[trigger] buffers@[j])@ == silent(),
            decreases channels - c,
        {
            buffers.push(Buffer::new());
            c += 1;
        }
        NodeData { buffers, node }
    }
}

/// An edge as its target sees it: the vertex that it comes from, and its tag.
pub struct Edge<I> {
    pub source: usize,
    pub variant: I,
}

/// What a graph holds, vertex by vertex.
pub ghost struct GraphView<T, I> {
    /// The node of each vertex.
    pub nodes: Seq<T>,
    /// The samples in the output buffers of each vertex.
    pub outputs: Seq<Seq<Seq<i32>>>,
    /// The edges toward each vertex, in the order in which they were added.
    pub incoming: Seq<Seq<Edge<I>>>,
}

/// Whether every edge of `incoming` comes from one of its vertices.
pub open spec fn closed_under_sources<I>(incoming: Seq<Seq<Edge<I>>>) -> bool {
    forall|v: int, k: int|
        0 <= v < incoming.len() && 0 <= k < incoming[v].len() ==> (#[trigger] incoming[v][k]).source
            < incoming.len()
}

impl<T, I> GraphView<T, I> {
    /// Whether the three sequences tell of the same vertices, and every edge
    /// comes from one of them.
    pub open spec fn wf(&self) -> bool {
        &&& self.nodes.len() == self.incoming.len()
        &&& self.outputs.len() == self.incoming.len()
        &&& closed_under_sources(self.incoming)
    }

    /// The number of vertices.
    pub open spec fn len(&self) -> nat {
        self.incoming.len()
    }
}

/// What a node at `target` is given to read: one view for each edge of
/// `edges`, in their order, over the output of the edge's source as `outputs`
/// has it. An edge from `target` to itself gives none.
pub open spec fn gathered<I>(edges: Seq<Edge<I>>, target: int, outputs: Seq<Seq<Seq<i32>>>) -> Seq<
    InputView<I>,
> {
    edges.filter(from_other(target)).map_values(seen_in(outputs))
}

/// Whether an edge comes from another vertex than `target`.
pub open spec fn from_other<I>(target: int) -> spec_fn(Edge<I>) -> bool {
    |e: Edge<I>| e.source != target
}

/// The view through an edge of the output of its source, as `outputs` has it.
pub open spec fn seen_in<I>(outputs: Seq<Seq<Seq<i32>>>) -> spec_fn(Edge<I>) -> InputView<I> {
    |e: Edge<I>| InputView { variant: e.variant, buffers: outputs[e.source as int] }
}

/// A directed graph of nodes with their output buffers.
///
/// Vertices are numbered from zero in the order in which they were added.
pub struct Graph<T, I = ()> {
    nodes: Vec<T>,
    outputs: Vec<Vec<Buffer>>,
    incoming: Vec<Vec<Edge<I>>>,
}

impl<T, I> Graph<T, I> {
    /// The nodes, outputs and edges of the graph.
    pub closed spec fn view(&self) -> GraphView<T, I> {
        GraphView {
            nodes: self.nodes@,
            outputs: self.outputs@.map_values(|b: Vec<Buffer>| samples(b@)),
            incoming: self.incoming@.map_values(|e: Vec<Edge<I>>| e@),
        }
    }

    /// Whether the graph is consistent. Every graph made by the functions of
    /// this type is.
    pub open spec fn wf(&self) -> bool {
        self@.wf()
    }

    /// Every output buffer holds [`Buffer::LEN`] samples.
    pub proof fn lemma_block_len(&self, v: int, c: int)
        requires
            0 <= v < self@.outputs.len(),
            0 <= c < self@.outputs[v].len(),
        ensures
            self@.outputs[v][c].len() == Buffer::LEN,
    {
        self.outputs@[v]@[c].lemma_len();
    }

    /// A graph without vertices.
    pub fn new() -> (r: Self)
        ensures
            r.wf(),
            r@.nodes == Seq::<T>::empty(),
            r@.outputs == Seq::<Seq<Seq<i32>>>::empty(),
            r@.incoming == Seq::<Seq<Edge<I>>>::empty(),
    {
        let r = Graph { nodes: Vec::new(), outputs: Vec::new(), incoming: Vec::new() };
        r
    }

    /// The number of vertices.
    pub fn node_count(&self) -> (r: usize)
        requires
            self.wf(),
        ensures
            r == self@.len(),
    {
        self.incoming.len()
    }

    /// Adds a vertex that holds `data` and has no edges, and returns its
    /// number.
    pub fn add_node(&mut self, data: NodeData<T>) -> (v: usize)
        requires
            old(self).wf(),
        ensures
            final(self).wf(),
            v == old(self)@.len(),
            final(self)@.nodes == old(self)@.nodes.push(data.node),
            final(self)@.outputs == old(self)@.outputs.push(samples(data.buffers@)),
            final(self)@.incoming == old(self)@.incoming.push(Seq::empty()),
    {
        let v = self.incoming.len();
        let NodeData { buffers, node } = data;
        self.nodes.push(node);
        self.outputs.push(buffers);
        self.incoming.push(Vec::new());
        assert(self@.incoming =~= old(self)@.incoming.push(Seq::empty()));
        v
    }

    /// Adds an edge from `source` to `target`, tagged with `variant`, after
    /// the edges that `target` already has. Does nothing, and says so with
    /// `false`, unless both are vertices of the graph.
    pub fn add_edge(&mut self, source: usize, target: usize, variant: I) -> (added: bool)
        requires
            old(self).wf(),
        ensures
            final(self).wf(),
            added == (source < old(self)@.len() && target < old(self)@.len()),
            final(self)@.nodes == old(self)@.nodes,
            final(self)@.outputs == old(self)@.outputs,
            added ==> final(self)@.incoming == old(self)@.incoming.update(
                target as int,
                old(self)@.incoming[target as int].push(Edge { source, variant }),
            ),
            !added ==> final(self)@.incoming == old(self)@.incoming,
    {
        let n = self.incoming.len();
        if source < n && target < n {
            self.incoming[target].push(Edge { source, variant });
            assert(self@.incoming =~= old(self)@.incoming.update(
                target as int,
                old(self)@.incoming[target as int].push(Edge { source, variant }),
            ));
            true
        } else {
            false
        }
    }

    /// The number of edges toward `v`.
    pub fn in_degree(&self, v: usize) -> (r: usize)
        requires
            self.wf(),
            v < self@.len(),
        ensures
            r == self@.incoming[v as int].len(),
    {
        self.incoming[v].len()
    }

    /// The `k`-th edge toward `v`.
    pub fn edge(&self, v: usize, k: usize) -> (r: &Edge<I>)
        requires
            self.wf(),
            v < self@.len(),
            k < self@.incoming[v as int].len(),
        ensures
            *r == self@.incoming[v as int][k as int],
            r.source < self@.len(),
    {
        &self.incoming[v][k]
    }

    /// The node at `v`.
    pub fn node(&self, v: usize) -> (r: &T)
        requires
            self.wf(),
            v < self@.len(),
        ensures
            *r == self@.nodes[v as int],
    {
        &self.nodes[v]
    }

    /// The output buffers of the node at `v`.
    pub fn buffers(&self, v: usize) -> (r: &[Buffer])
        requires
            self.wf(),
            v < self@.len(),
        ensures
            samples(r@) == self@.outputs[v as int],
    {
        self.outputs[v].as_slice()
    }
}

impl<T: Node<I>, I: Copy> Graph<T, I> {
    /// Lets the node at `v` process one block.
    ///
    /// The node is given one input for each edge toward `v` that comes from
    /// another vertex, in the order of the edges, each over the buffers that
    /// its source holds now. Only the node at `v` and its buffers change.
    pub fn process_node(&mut self, v: usize)
        requires
            old(self).wf(),
            v < old(self)@.len(),
        ensures
            final(self).wf(),
            final(self)@.incoming == old(self)@.incoming,
            forall|u: int|
                0 <= u < old(self)@.len() && u != v ==> final(self)@.nodes[u] == old(self)@.nodes[u]
                    && final(self)@.outputs[u] == old(self)@.outputs[u],
            final(self)@.outputs[v as int].len() == old(self)@.outputs[v as int].len(),
            old(self)@.nodes[v as int].emits(
                gathered(old(self)@.incoming[v as int], v as int, old(self)@.outputs),
                old(self)@.outputs[v as int],
                final(self)@.outputs[v as int],
            ),
    {
        let ghost before = self@;
        let ghost skip_own = from_other::<I>(v as int);
        let ghost to_view = seen_in::<I>(before.outputs);
        let mut out: Vec<Buffer> = Vec::new();
        core::mem::swap(&mut out, &mut self.outputs[v]);
        let edges = &self.incoming[v];
        let mut inputs: Vec<Input<'_, I>> = Vec::with_capacity(edges.len());
        let mut k: usize = 0;
        proof {
            reveal(Seq::filter);
        }
        while k < edges.len()
            invariant
                k <= edges.len(),
                v < self.outputs@.len(),
                self.outputs@.len() == before.outputs.len(),
                edges@ == before.incoming[v as int],
                before.wf(),
                forall|u: int|
                    0 <= u < before.outputs.len() && u != v ==> samples(
                        #[trigger] self.outputs@[u]@,
                    ) == before.outputs[u],
                views(inputs@) == gathered(edges@.take(k as int), v as int, before.outputs),
                skip_own == from_other::<I>(v as int),
                to_view == seen_in::<I>(before.outputs),
            decreases edges.len() - k,
        {
            let e = &edges[k];
            proof {
                let seen = edges@.take(k as int);
                edges@.lemma_take_succ_push(k as int);
                seen.lemma_filter_push(*e, skip_own);
                seen.filter(skip_own).lemma_push_map_commute(to_view, *e);
            }
            if e.source != v {
                let input = Input::new(self.outputs[e.source].as_slice(), e.variant);
                inputs.push(input);
            }
            k += 1;
        }
        assert(edges@.take(k as int) == edges@);
        self.nodes[v].process(inputs.as_slice(), out.as_mut_slice());
        core::mem::swap(&mut out, &mut self.outputs[v]);
    }
}

} // verus!
