use dasp_graph::walk::visit_order;
use dasp_graph::{Buffer, Graph, Input, Node, NodeData, Sum};

/// Writes to sample 0 the number of its inputs, and to sample 1 the sum of
/// tag times first sample over its inputs.
struct Probe;

impl Node<i32> for Probe {
    fn process(&mut self, inputs: &[Input<i32>], output: &mut [Buffer]) {
        let mut weighted = 0;
        for input in inputs {
            weighted += input.variant * input.buffers()[0].get(0);
        }
        for buffer in output.iter_mut() {
            buffer.set(0, inputs.len() as i32);
            buffer.set(1, weighted);
        }
    }
}

fn level(v: i32) -> Buffer {
    Buffer::from_samples([v; 64])
}

fn position(order: &[usize], v: usize) -> usize {
    order.iter().position(|x| *x == v).unwrap()
}

#[test]
fn node_data_keeps_node_and_buffers() {
    let data = NodeData::new(7u8, vec![level(1), level(2)]);
    assert_eq!(data.node, 7);
    assert_eq!(data.buffers, vec![level(1), level(2)]);
}

#[test]
fn node_data_with_channels_is_silent() {
    let data = NodeData::with_channels('x', 3);
    assert_eq!(data.node, 'x');
    assert_eq!(data.buffers, vec![Buffer::new(), Buffer::new(), Buffer::new()]);
    let none = NodeData::with_channels('y', 0);
    assert!(none.buffers.is_empty());
}

#[test]
fn vertices_are_numbered_in_order() {
    let mut g: Graph<Sum> = Graph::new();
    assert_eq!(g.node_count(), 0);
    assert_eq!(g.add_node(NodeData::with_channels(Sum, 1)), 0);
    assert_eq!(g.add_node(NodeData::with_channels(Sum, 2)), 1);
    assert_eq!(g.add_node(NodeData::new(Sum, vec![level(4)])), 2);
    assert_eq!(g.node_count(), 3);
    assert_eq!(g.buffers(0).len(), 1);
    assert_eq!(g.buffers(1).len(), 2);
    assert_eq!(g.buffers(2), &[level(4)][..]);
    assert_eq!(*g.node(1), Sum);
    assert_eq!(g.in_degree(0), 0);
}

#[test]
fn edges_are_kept_in_order_with_their_tags() {
    let mut g: Graph<Probe, i32> = Graph::new();
    let a = g.add_node(NodeData::with_channels(Probe, 1));
    let b = g.add_node(NodeData::with_channels(Probe, 1));
    assert!(g.add_edge(a, b, 10));
    assert!(g.add_edge(b, b, 20));
    assert!(g.add_edge(a, b, 30));
    assert_eq!(g.in_degree(a), 0);
    assert_eq!(g.in_degree(b), 3);
    assert_eq!(g.edge(b, 0).source, a);
    assert_eq!(g.edge(b, 0).variant, 10);
    assert_eq!(g.edge(b, 1).source, b);
    assert_eq!(g.edge(b, 1).variant, 20);
    assert_eq!(g.edge(b, 2).source, a);
    assert_eq!(g.edge(b, 2).variant, 30);
}

#[test]
fn edge_to_or_from_no_vertex_is_refused() {
    let mut g: Graph<Sum> = Graph::new();
    assert!(!g.add_edge(0, 0, ()));
    let a = g.add_node(NodeData::with_channels(Sum, 1));
    assert!(!g.add_edge(a, 1, ()));
    assert!(!g.add_edge(1, a, ()));
    assert!(!g.add_edge(5, 7, ()));
    assert_eq!(g.in_degree(a), 0);
    assert!(g.add_edge(a, a, ()));
    assert_eq!(g.in_degree(a), 1);
    assert_eq!(g.node_count(), 1);
}

#[test]
fn process_node_gives_one_input_for_each_edge() {
    let mut g: Graph<Probe, i32> = Graph::new();
    let a = g.add_node(NodeData::new(Probe, vec![level(3)]));
    let b = g.add_node(NodeData::new(Probe, vec![level(5)]));
    let c = g.add_node(NodeData::with_channels(Probe, 2));
    g.add_edge(a, c, 1);
    g.add_edge(b, c, 10);
    g.add_edge(a, c, 100);
    g.process_node(c);
    assert_eq!(g.buffers(c).len(), 2);
    assert_eq!(g.buffers(c)[0].get(0), 3);
    assert_eq!(g.buffers(c)[0].get(1), 3 + 50 + 300);
    assert_eq!(g.buffers(c)[1].get(0), 3);
    assert_eq!(g.buffers(c)[1].get(1), 353);
    assert_eq!(g.buffers(a), &[level(3)][..]);
    assert_eq!(g.buffers(b), &[level(5)][..]);
}

#[test]
fn process_node_without_edges_gives_no_input() {
    let mut g: Graph<Probe, i32> = Graph::new();
    let a = g.add_node(NodeData::new(Probe, vec![level(9)]));
    g.process_node(a);
    assert_eq!(g.buffers(a)[0].get(0), 0);
    assert_eq!(g.buffers(a)[0].get(1), 0);
    assert_eq!(g.buffers(a)[0].get(2), 9);
}

#[test]
fn process_node_skips_an_edge_to_itself() {
    let mut g: Graph<Probe, i32> = Graph::new();
    let a = g.add_node(NodeData::new(Probe, vec![level(2)]));
    let b = g.add_node(NodeData::new(Probe, vec![level(4)]));
    g.add_edge(b, b, 1000);
    g.add_edge(a, b, 1);
    g.add_edge(b, b, 1000);
    g.process_node(b);
    assert_eq!(g.buffers(b)[0].get(0), 1);
    assert_eq!(g.buffers(b)[0].get(1), 2);
}

#[test]
fn visit_order_of_a_single_vertex() {
    let mut g: Graph<Sum> = Graph::new();
    let a = g.add_node(NodeData::with_channels(Sum, 1));
    g.add_node(NodeData::with_channels(Sum, 1));
    assert_eq!(visit_order(&g, a), vec![a]);
}

#[test]
fn visit_order_of_a_chain() {
    let mut g: Graph<Sum> = Graph::new();
    let c = g.add_node(NodeData::with_channels(Sum, 1));
    let b = g.add_node(NodeData::with_channels(Sum, 1));
    let a = g.add_node(NodeData::with_channels(Sum, 1));
    g.add_edge(a, b, ());
    g.add_edge(b, c, ());
    assert_eq!(visit_order(&g, c), vec![a, b, c]);
    assert_eq!(visit_order(&g, b), vec![a, b]);
    assert_eq!(visit_order(&g, a), vec![a]);
}

#[test]
fn visit_order_puts_ancestors_first() {
    // 0 -> 1 -> 3 -> 5, 0 -> 2 -> 3, 2 -> 4 -> 5, 6 -> 0, 5 -> 7
    let mut g: Graph<Sum> = Graph::new();
    for _ in 0..8 {
        g.add_node(NodeData::with_channels(Sum, 1));
    }
    let edges = [(4, 5), (3, 5), (2, 4), (2, 3), (1, 3), (0, 2), (0, 1), (6, 0), (5, 7)];
    for (from, to) in edges {
        assert!(g.add_edge(from, to, ()));
    }
    let order = visit_order(&g, 5);
    let mut sorted = order.clone();
    sorted.sort();
    assert_eq!(sorted, vec![0, 1, 2, 3, 4, 5, 6]);
    assert_eq!(*order.last().unwrap(), 5);
    for (from, to) in edges {
        if to != 7 {
            assert!(position(&order, from) < position(&order, to));
        }
    }
    let ancestors = [(6, 5), (0, 5), (0, 3), (0, 4), (6, 1), (2, 5), (6, 4)];
    for (ancestor, v) in ancestors {
        assert!(position(&order, ancestor) < position(&order, v));
    }
}

#[test]
fn visit_order_leaves_out_what_does_not_reach_the_root() {
    let mut g: Graph<Sum> = Graph::new();
    for _ in 0..5 {
        g.add_node(NodeData::with_channels(Sum, 1));
    }
    g.add_edge(0, 1, ());
    g.add_edge(1, 2, ());
    g.add_edge(1, 3, ());
    g.add_edge(4, 3, ());
    assert_eq!(visit_order(&g, 2), vec![0, 1, 2]);
    let order = visit_order(&g, 3);
    assert_eq!(order.len(), 4);
    assert_eq!(order[3], 3);
    assert!(!order.contains(&2));
    assert!(position(&order, 0) < position(&order, 1));
}

#[test]
fn visit_order_visits_once_through_parallel_edges() {
    let mut g: Graph<Sum> = Graph::new();
    let a = g.add_node(NodeData::with_channels(Sum, 1));
    let b = g.add_node(NodeData::with_channels(Sum, 1));
    g.add_edge(a, b, ());
    g.add_edge(a, b, ());
    g.add_edge(a, b, ());
    assert_eq!(visit_order(&g, b), vec![a, b]);
}

#[test]
fn visit_order_ends_on_a_cycle() {
    let mut g: Graph<Sum> = Graph::new();
    for _ in 0..4 {
        g.add_node(NodeData::with_channels(Sum, 1));
    }
    g.add_edge(0, 1, ());
    g.add_edge(1, 2, ());
    g.add_edge(2, 0, ());
    g.add_edge(2, 2, ());
    g.add_edge(3, 0, ());
    let order = visit_order(&g, 1);
    let mut sorted = order.clone();
    sorted.sort();
    assert_eq!(sorted, vec![0, 1, 2, 3]);
    assert_eq!(order[3], 1);
    assert!(position(&order, 3) < position(&order, 0));
}
