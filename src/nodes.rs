//! Dataflow graph nodes that add and subtract streams.

use vstd::prelude::*;

verus! {

/// Identifier of a node of the dataflow graph.
#[derive(Clone, Copy, Debug, PartialEq, Eq, Structural)]
pub struct NodeId(pub u32);

/// Identifier of a row layout.
#[derive(Clone, Copy, Debug, PartialEq, Eq, Structural)]
pub struct LayoutId(pub u32);

/// The shape of the rows that flow along a stream.
#[derive(Clone, Copy, Debug, PartialEq, Eq, Structural)]
pub enum StreamLayout {
    /// A set of rows of one layout.
    Unkeyed(LayoutId),
    /// A map from rows of the first layout to rows of the second.
    Keyed(LayoutId, LayoutId),
}

/// Adds up any number of input streams of one layout.
#[derive(Clone, Debug)]
pub struct Sum {
    inputs: Vec<NodeId>,
    layout: StreamLayout,
}

impl Sum {
    pub closed spec fn spec_inputs(&self) -> Seq<NodeId> {
        self.inputs@
    }

    pub closed spec fn spec_layout(&self) -> StreamLayout {
        self.layout
    }

    pub fn new(inputs: Vec<NodeId>, layout: StreamLayout) -> (r: Self)
        ensures
            r.spec_inputs() == inputs@,
            r.spec_layout() == layout,
    {
        Self { inputs, layout }
    }

    pub fn inputs(&self) -> (r: &[NodeId])
        ensures
            r@ == self.spec_inputs(),
    {
        self.inputs.as_slice()
    }

    pub fn inputs_mut(&mut self) -> (r: &mut Vec<NodeId>)
        ensures
            r@ == old(self).spec_inputs(),
            final(self).spec_inputs() == final(r)@,
            final(self).spec_layout() == old(self).spec_layout(),
    {
        &mut self.inputs
    }

    pub fn layout(&self) -> (r: StreamLayout)
        ensures
            r == self.spec_layout(),
    {
        self.layout
    }

    /// The layout of the output stream: the node's own layout.
    pub fn output_stream(&self, inputs: &[StreamLayout]) -> (r: Option<StreamLayout>)
        ensures
            r == Some(self.spec_layout()),
    {
        Some(self.layout)
    }

    /// Whether every input stream has the node's layout.
    pub fn validate(&self, inputs: &[StreamLayout]) -> (r: bool)
        ensures
            r == (forall|i: int| 0 <= i < inputs@.len() ==> inputs@[i] == self.spec_layout()),
    {
        let mut i: usize = 0;
        while i < inputs.len()
            invariant
                0 <= i <= inputs@.len(),
                forall|j: int| 0 <= j < i ==> inputs@[j] == self.layout,
            decreases inputs@.len() - i,
        {
            if inputs[i] != self.layout {
                return false;
            }
            i = i + 1;
        }
        true
    }
}

/// Subtracts the right input stream from the left one.
#[derive(Clone, Copy, Debug)]
pub struct Minus {
    lhs: NodeId,
    rhs: NodeId,
}

impl Minus {
    pub closed spec fn spec_lhs(&self) -> NodeId {
        self.lhs
    }

    pub closed spec fn spec_rhs(&self) -> NodeId {
        self.rhs
    }

    pub fn new(lhs: NodeId, rhs: NodeId) -> (r: Self)
        ensures
            r.spec_lhs() == lhs,
            r.spec_rhs() == rhs,
    {
        Self { lhs, rhs }
    }

    pub fn lhs(&self) -> (r: NodeId)
        ensures
            r == self.spec_lhs(),
    {
        self.lhs
    }

    pub fn rhs(&self) -> (r: NodeId)
        ensures
            r == self.spec_rhs(),
    {
        self.rhs
    }

    /// The two inputs, left first.
    pub fn map_inputs(&self) -> (r: Vec<NodeId>)
        ensures
            r@ == seq![self.spec_lhs(), self.spec_rhs()],
    {
        vec![self.lhs, self.rhs]
    }

    /// The layout of the output stream: that of the first input.
    pub fn output_stream(&self, inputs: &[StreamLayout]) -> (r: Option<StreamLayout>)
        requires
            inputs@.len() >= 1,
        ensures
            r == Some(inputs@[0]),
    {
        Some(inputs[0])
    }

    /// Whether there are exactly two inputs of one layout.
    pub fn validate(&self, inputs: &[StreamLayout]) -> (r: bool)
        ensures
            r == (inputs@.len() == 2 && inputs@[0] == inputs@[1]),
    {
        inputs.len() == 2 && inputs[0] == inputs[1]
    }
}

} // verus!
