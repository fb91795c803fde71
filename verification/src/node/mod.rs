//! The processing contract of a node, and the view a node gets of each of its
//! inputs.

use crate::buffer::Buffer;
use vstd::prelude::*;

pub use boxed::{BoxedNode, BoxedNodeSend, SendNode};
pub use sum::Sum;

pub mod boxed;
pub mod sum;

verus! {

/// What a node reads of one incoming edge: the tag of the edge, and the
/// samples of every output channel of the node at its source.
pub ghost struct InputView<T> {
    pub variant: T,
    pub buffers: Seq<Seq<i32>>,
}

/// The samples of a sequence of buffers, channel by channel.
pub open spec fn samples(buffers: Seq<Buffer>) -> Seq<Seq<i32>> {
    buffers.map_values(|b: Buffer| b@)
}

/// The views of a sequence of inputs, edge by edge.
pub open spec fn views<T>(inputs: Seq<Input<'_, T>>) -> Seq<InputView<T>> {
    inputs.map_values(|i: Input<'_, T>| i@)
}

/// A reference to another node that is an input to the current node.
///
/// An input borrows the output buffers of the node at the source of one
/// incoming edge, and carries the tag of that edge. The borrow ends with the
/// call of [`Node::process`] that the input was built for.
#[derive(Debug)]
pub struct Input<'a, T = ()> {
    pub variant: T,
    buffers: &'a [Buffer],
}

impl<'a, T> Input<'a, T> {
    /// The tag of the edge and the samples behind this input.
    pub closed spec fn view(&self) -> InputView<T> {
        InputView { variant: self.variant, buffers: samples(self.buffers@) }
    }

    /// An input over the buffers in `slice`, tagged with `variant`.
    pub fn new(slice: &'a [Buffer], variant: T) -> (r: Self)
        ensures
            r@ == (InputView { variant, buffers: samples(slice@) }),
    {
        Input { variant, buffers: slice }
    }

    /// A reference to the buffers of the input node.
    pub fn buffers(&self) -> (r: &'a [Buffer])
        ensures
            samples(r@) == self@.buffers,
    {
        self.buffers
    }

    /// The tag of the edge that this input stands for.
    pub fn variant(&self) -> (r: &T)
        ensures
            *r == self@.variant,
    {
        &self.variant
    }
}

/// The `Node` type used within a graph must implement this trait.
///
/// The implementation describes how audio is processed from its inputs to
/// outputs.
///
/// - Audio **sources** may ignore `inputs` and write their data directly to
///   the `output` buffers.
/// - Audio **processors**, **effects** or **sinks** may read from their
///   `inputs`, apply some processing and write the result to `output`.
///
/// `output` is not cleared between calls: a node writes everything that it
/// means to emit.
pub trait Node<I = ()> {
    /// Whether one call of `process` on this node, given `inputs` and output
    /// buffers that hold `before`, may leave `after` in them.
    ///
    /// A node that gives no account of itself may leave anything.
    open spec fn emits(
        &self,
        inputs: Seq<InputView<I>>,
        before: Seq<Seq<i32>>,
        after: Seq<Seq<i32>>,
    ) -> bool {
        true
    }

    /// Process some audio given a list of the node's `inputs` and write the
    /// result to the `output` buffers.
    ///
    /// `inputs` holds one entry for each edge toward this node. The number of
    /// output buffers never changes.
    fn process(&mut self, inputs: &[Input<'_, I>], output: &mut [Buffer])
        ensures
            final(output)@.len() == old(output)@.len(),
            (*old(self)).emits(views(inputs@), samples(old(output)@), samples(final(output)@)),
    ;
}

impl<'a, T, I> Node<I> for &'a mut T where T: Node<I> + ?Sized {
    open spec fn emits(
        &self,
        inputs: Seq<InputView<I>>,
        before: Seq<Seq<i32>>,
        after: Seq<Seq<i32>>,
    ) -> bool {
        (**self).emits(inputs, before, after)
    }

    fn process(&mut self, inputs: &[Input<'_, I>], output: &mut [Buffer]) {
        (**self).process(inputs, output)
    }
}

impl<T, I> Node<I> for Box<T> where T: Node<I> + ?Sized {
    open spec fn emits(
        &self,
        inputs: Seq<InputView<I>>,
        before: Seq<Seq<i32>>,
        after: Seq<Seq<i32>>,
    ) -> bool {
        (**self).emits(inputs, before, after)
    }

    fn process(&mut self, inputs: &[Input<'_, I>], output: &mut [Buffer]) {
        (**self).process(inputs, output)
    }
}

} // verus!
