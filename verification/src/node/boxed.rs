//! Wrappers that hide the type of a node behind a box.
//!
//! A wrapper may write exactly what the box that it holds may write. What a
//! box of a trait object may write is known here only from the contract of
//! [`Node::process`]: how a trait object comes by the methods of the node it
//! was made of is the language's matter, and no contract speaks of it.

use crate::buffer::Buffer;
use crate::node::{Input, InputView, Node};
use vstd::prelude::*;
use vstd::std_specs::convert::{FromSpecImpl, IntoSpecImpl};

verus! {

/// A node that may be sent to another thread.
///
/// Every node that is `Send` is one.
pub trait SendNode<I = ()>: Node<I> + Send {}

impl<T, I> SendNode<I> for T where T: Node<I> + Send {}

/// A wrapper around a `Box<dyn Node>`.
///
/// Gives nodes of different types the one sized type that a graph stores.
#[verifier::reject_recursive_types(I)]
pub struct BoxedNode<I = ()>(pub Box<dyn Node<I>>);

/// A wrapper around a boxed node that can be sent to another thread.
///
/// Useful when nodes, or the graph itself, are set up on one thread and then
/// handed to the audio thread.
#[verifier::reject_recursive_types(I)]
pub struct BoxedNodeSend<I = ()>(pub Box<dyn SendNode<I>>);

/// Whether two nodes may write exactly the same output, whatever they are
/// given.
pub open spec fn same_output<A: Node<I>, B: Node<I>, I>(a: A, b: B) -> bool {
    forall|inputs: Seq<InputView<I>>, before: Seq<Seq<i32>>, after: Seq<Seq<i32>>|
        a.emits(inputs, before, after) <==> b.emits(inputs, before, after)
}

impl<I> BoxedNode<I> {
    /// Create a new `BoxedNode` around the given `node`: the wrapper of a
    /// box that holds `node`.
    ///
    /// This is short-hand for `BoxedNode::from(Box::new(node))`.
    pub fn new<T>(node: T) -> (r: Self) where T: 'static + Node<I>
        ensures
            r == BoxedNode::<I>(Box::new(node)),
    {
        Self::from(Box::new(node))
    }

    /// The name of this type: all that a wrapper shows of itself.
    pub fn name(&self) -> (r: &'static str)
        ensures
            r@ == "BoxedNode"@,
    {
        "BoxedNode"
    }

    /// The boxed node, for a call that changes it.
    pub fn node_mut(&mut self) -> (r: &mut Box<dyn Node<I>>)
        ensures
            *r == old(self).0,
            final(self).0 == *final(r),
    {
        &mut self.0
    }
}

impl<I> BoxedNodeSend<I> {
    /// Create a new `BoxedNodeSend` around the given `node`: the wrapper of
    /// a box that holds `node`.
    ///
    /// This is short-hand for `BoxedNodeSend::from(Box::new(node))`.
    pub fn new<T>(node: T) -> (r: Self) where T: 'static + Node<I> + Send
        ensures
            r == BoxedNodeSend::<I>(Box::new(node)),
    {
        Self::from(Box::new(node))
    }

    /// The name of this type: all that a wrapper shows of itself.
    pub fn name(&self) -> (r: &'static str)
        ensures
            r@ == "BoxedNodeSend"@,
    {
        "BoxedNodeSend"
    }

    /// The boxed node, for a call that changes it.
    pub fn node_mut(&mut self) -> (r: &mut Box<dyn SendNode<I>>)
        ensures
            *r == old(self).0,
            final(self).0 == *final(r),
    {
        &mut self.0
    }
}

impl<I> Node<I> for BoxedNode<I> {
    open spec fn emits(
        &self,
        inputs: Seq<InputView<I>>,
        before: Seq<Seq<i32>>,
        after: Seq<Seq<i32>>,
    ) -> bool {
        self.0.emits(inputs, before, after)
    }

    fn process(&mut self, inputs: &[Input<'_, I>], output: &mut [Buffer]) {
        self.0.process(inputs, output)
    }
}

impl<I> Node<I> for BoxedNodeSend<I> {
    open spec fn emits(
        &self,
        inputs: Seq<InputView<I>>,
        before: Seq<Seq<i32>>,
        after: Seq<Seq<i32>>,
    ) -> bool {
        self.0.emits(inputs, before, after)
    }

    fn process(&mut self, inputs: &[Input<'_, I>], output: &mut [Buffer]) {
        self.0.process(inputs, output)
    }
}

impl<T, I> From<Box<T>> for BoxedNode<I> where T: 'static + Node<I> {
    fn from(n: Box<T>) -> (r: Self) {
        BoxedNode(n)
    }
}

impl<T, I> FromSpecImpl<Box<T>> for BoxedNode<I> where T: 'static + Node<I> {
    open spec fn obeys_from_spec() -> bool {
        true
    }

    open spec fn from_spec(n: Box<T>) -> Self {
        BoxedNode(n)
    }
}

impl<T, I> From<Box<T>> for BoxedNodeSend<I> where T: 'static + Node<I> + Send {
    fn from(n: Box<T>) -> (r: Self) {
        BoxedNodeSend(n)
    }
}

impl<T, I> FromSpecImpl<Box<T>> for BoxedNodeSend<I> where T: 'static + Node<I> + Send {
    open spec fn obeys_from_spec() -> bool {
        true
    }

    open spec fn from_spec(n: Box<T>) -> Self {
        BoxedNodeSend(n)
    }
}

impl<I> core::ops::Deref for BoxedNode<I> {
    type Target = Box<dyn Node<I>>;

    fn deref(&self) -> (r: &Self::Target)
        ensures
            *r == self.0,
    {
        &self.0
    }
}

impl<I> core::ops::Deref for BoxedNodeSend<I> {
    type Target = Box<dyn SendNode<I>>;

    fn deref(&self) -> (r: &Self::Target)
        ensures
            *r == self.0,
    {
        &self.0
    }
}

impl<I> Into<Box<dyn Node<I>>> for BoxedNode<I> {
    fn into(self) -> Box<dyn Node<I>> {
        self.0
    }
}

impl<I> IntoSpecImpl<Box<dyn Node<I>>> for BoxedNode<I> {
    open spec fn obeys_into_spec() -> bool {
        true
    }

    open spec fn into_spec(self) -> Box<dyn Node<I>> {
        self.0
    }
}

impl<I> Into<Box<dyn SendNode<I>>> for BoxedNodeSend<I> {
    fn into(self) -> Box<dyn SendNode<I>> {
        self.0
    }
}

impl<I> IntoSpecImpl<Box<dyn SendNode<I>>> for BoxedNodeSend<I> {
    open spec fn obeys_into_spec() -> bool {
        true
    }

    open spec fn into_spec(self) -> Box<dyn SendNode<I>> {
        self.0
    }
}

/// A wrapper adds nothing to the box that it holds: taken out of the
/// wrapper, the box may write exactly what the wrapper may write.
pub proof fn lemma_unwrapped_same<I>(wrapper: BoxedNode<I>)
    ensures
        same_output(wrapper, wrapper.0),
{
}

/// A wrapper adds nothing to the box that it holds: taken out of the
/// wrapper, the box may write exactly what the wrapper may write.
pub proof fn lemma_unwrapped_same_send<I>(wrapper: BoxedNodeSend<I>)
    ensures
        same_output(wrapper, wrapper.0),
{
}

} // verus!
