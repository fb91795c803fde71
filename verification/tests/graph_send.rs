//! Makes sure that `Processor` and graphs of sendable nodes stay `Send`.
//!
//! It is enough that this compiles.

#![allow(unreachable_code, unused_variables, unused_mut)]

use dasp_graph::{BoxedNodeSend, Graph, Processor};

/// Takes what a new thread would take.
fn hand_over<F>(f: F)
where
    F: FnOnce() + Send + 'static,
{
    f()
}

#[test]
#[should_panic]
fn test_graph_send() {
    type Nodes = Graph<BoxedNodeSend<()>, ()>;
    let mut g: Nodes = panic!("no graph is made");
    let mut p: Processor = panic!("no processor is made");
    let n: usize = panic!("no vertex is chosen");

    hand_over(move || {
        p.process(&mut g, n);
    });
}
