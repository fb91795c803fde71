//! An audio graph whose nodes read the sample buffers of their direct
//! predecessors and write their own, walked once per block of audio in an
//! order that puts every dependency first.

pub mod buffer;
pub mod graph;
pub mod node;
pub mod processor;
pub mod walk;

pub use buffer::Buffer;
pub use graph::{Edge, Graph, GraphView, NodeData};
pub use processor::{process, Processor};
pub use node::{BoxedNode, BoxedNodeSend, Input, InputView, Node, SendNode, Sum};
