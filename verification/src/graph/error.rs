//! What can be wrong with a graph, an edge list or a permutation.
use vstd::prelude::*;
use vstd::string::StringExecFns;
use crate::text::{
    decimal, label, label_pair, lemma_tells_one, lemma_tells_three, lemma_tells_two, push_decimal,
    tells,
};

verus! {

/// Edge timestamp length did not match the number of edges.
#[derive(Debug, Clone, Copy, PartialEq, Eq, Structural)]
pub struct TimestampLengthMismatch {
    pub got: usize,
    pub expected: usize,
}

impl TimestampLengthMismatch {
    /// The text of the message.
    pub open spec fn text(self) -> Seq<char> {
        "timestamps length "@ + decimal(self.got as nat) + " != num_edges "@ + decimal(
            self.expected as nat,
        )
    }

    /// Describes the mismatch.
    pub fn message(&self) -> (s: String)
        ensures
            s@ == self.text(),
    {
        label_pair("timestamps length ", self.got as u64, " != num_edges ", self.expected as u64)
    }
}

/// Why a graph could not be built, validated or renumbered.
#[derive(Debug, Clone, Copy, PartialEq, Eq, Structural)]
pub enum GraphError {
    /// An edge list came with a weight array of another length.
    WeightsPerEdge { got: usize, expected: usize },
    /// The source and destination columns differ in length.
    ColumnLength { src: usize, dst: usize },
    /// An edge starts at a node that does not exist.
    SourceOutOfRange { node: u32, num_nodes: usize },
    /// An edge ends at a node that does not exist.
    DestinationOutOfRange { node: u32, num_nodes: usize },
    /// The offsets array does not have one entry more than there are nodes.
    OffsetsLength { got: usize, expected: usize },
    /// The offsets array does not start at zero.
    FirstOffset { offset: u64 },
    /// The offsets array does not end at the number of edges.
    LastOffset,
    /// The offsets array descends at an index.
    OffsetDescends { index: usize, offset: u64, previous: u64 },
    /// The offsets array of a large graph descends somewhere.
    OffsetsDescend,
    /// The edges array does not have one entry per edge.
    EdgesLength { got: usize, expected: usize },
    /// The weights array does not have one entry per edge.
    WeightsLength { got: usize, expected: usize },
    /// An entry of the edges array is not a node.
    EdgeOutOfRange { node: u32, num_nodes: usize },
    /// Some entry of the edges array of a large graph is not a node.
    EdgesOutOfRange { num_nodes: usize },
    /// The permutation does not have one entry per node.
    PermutationLength,
    /// The permutation names a node that does not exist.
    PermutationOutOfRange { node: u32 },
    /// The permutation names a node twice.
    PermutationDuplicate { node: u32 },
}

impl GraphError {
    /// The text of the message.
    pub open spec fn text(self) -> Seq<char> {
        match self {
            GraphError::WeightsPerEdge { got, expected } => "weights length "@ + decimal(got as nat)
                + " doesn't match edges length "@ + decimal(expected as nat),
            GraphError::ColumnLength { src, dst } => "src length "@ + decimal(src as nat)
                + " doesn't match dst length "@ + decimal(dst as nat),
            GraphError::SourceOutOfRange { node, num_nodes } => "source node "@ + decimal(
                node as nat,
            ) + " exceeds num_nodes "@ + decimal(num_nodes as nat),
            GraphError::DestinationOutOfRange { node, num_nodes } => "destination node "@ + decimal(
                node as nat,
            ) + " exceeds num_nodes "@ + decimal(num_nodes as nat),
            GraphError::OffsetsLength { got, expected } => "offsets length "@ + decimal(got as nat)
                + " should be num_nodes + 1 = "@ + decimal(expected as nat),
            GraphError::FirstOffset { offset } => "first offset should be 0, got "@ + decimal(
                offset as nat,
            ),
            GraphError::LastOffset => "last offset should equal num_edges"@,
            GraphError::OffsetDescends { index, offset, previous } =>
                "offsets not monotonic at index "@ + decimal(index as nat) + ": "@ + decimal(
                offset as nat,
            ) + " < "@ + decimal(previous as nat),
            GraphError::OffsetsDescend => "offsets not monotonically increasing"@,
            GraphError::EdgesLength { got, expected } => "edges array length "@ + decimal(got as nat)
                + " doesn't match num_edges "@ + decimal(expected as nat),
            GraphError::WeightsLength { got, expected } => "weights length "@ + decimal(got as nat)
                + " doesn't match num_edges "@ + decimal(expected as nat),
            GraphError::EdgeOutOfRange { node, num_nodes } => "edge destination "@ + decimal(
                node as nat,
            ) + " out of range [0, "@ + decimal(num_nodes as nat) + ")"@,
            GraphError::EdgesOutOfRange { num_nodes } =>
                "some edge destinations are out of range [0, "@ + decimal(num_nodes as nat) + ")"@,
            GraphError::PermutationLength => "permutation length mismatch"@,
            GraphError::PermutationOutOfRange { node } => "out-of-range node "@ + decimal(node as nat),
            GraphError::PermutationDuplicate { node } => "duplicate node "@ + decimal(node as nat),
        }
    }

    /// Describes the error.
    pub fn message(&self) -> (s: String)
        ensures
            s@ == self.text(),
    {
        match *self {
            GraphError::WeightsPerEdge { got, expected } => label_pair(
                "weights length ",
                got as u64,
                " doesn't match edges length ",
                expected as u64,
            ),
            GraphError::ColumnLength { src, dst } => label_pair(
                "src length ",
                src as u64,
                " doesn't match dst length ",
                dst as u64,
            ),
            GraphError::SourceOutOfRange { node, num_nodes } => label_pair(
                "source node ",
                node as u64,
                " exceeds num_nodes ",
                num_nodes as u64,
            ),
            GraphError::DestinationOutOfRange { node, num_nodes } => label_pair(
                "destination node ",
                node as u64,
                " exceeds num_nodes ",
                num_nodes as u64,
            ),
            GraphError::OffsetsLength { got, expected } => label_pair(
                "offsets length ",
                got as u64,
                " should be num_nodes + 1 = ",
                expected as u64,
            ),
            GraphError::FirstOffset { offset } => label("first offset should be 0, got ", offset),
            GraphError::LastOffset => String::from_str("last offset should equal num_edges"),
            GraphError::OffsetDescends { index, offset, previous } => {
                let mut s = label_pair("offsets not monotonic at index ", index as u64, ": ", offset);
                s.append(" < ");
                push_decimal(&mut s, previous);
                s
            },
            GraphError::OffsetsDescend => String::from_str("offsets not monotonically increasing"),
            GraphError::EdgesLength { got, expected } => label_pair(
                "edges array length ",
                got as u64,
                " doesn't match num_edges ",
                expected as u64,
            ),
            GraphError::WeightsLength { got, expected } => label_pair(
                "weights length ",
                got as u64,
                " doesn't match num_edges ",
                expected as u64,
            ),
            GraphError::EdgeOutOfRange { node, num_nodes } => {
                let mut s = label_pair(
                    "edge destination ",
                    node as u64,
                    " out of range [0, ",
                    num_nodes as u64,
                );
                s.append(")");
                s
            },
            GraphError::EdgesOutOfRange { num_nodes } => {
                let mut s = label("some edge destinations are out of range [0, ", num_nodes as u64);
                s.append(")");
                s
            },
            GraphError::PermutationLength => String::from_str("permutation length mismatch"),
            GraphError::PermutationOutOfRange { node } => label("out-of-range node ", node as u64),
            GraphError::PermutationDuplicate { node } => label("duplicate node ", node as u64),
        }
    }
}

/// A message tells the numbers of its error, in this order.
pub proof fn law_graph_messages_tell_their_numbers(e: GraphError)
    ensures
        match e {
            GraphError::WeightsPerEdge { got, expected } => tells(
                e.text(),
                seq![decimal(got as nat), decimal(expected as nat)],
            ),
            GraphError::ColumnLength { src, dst } => tells(
                e.text(),
                seq![decimal(src as nat), decimal(dst as nat)],
            ),
            GraphError::SourceOutOfRange { node, num_nodes } => tells(
                e.text(),
                seq![decimal(node as nat), decimal(num_nodes as nat)],
            ),
            GraphError::DestinationOutOfRange { node, num_nodes } => tells(
                e.text(),
                seq![decimal(node as nat), decimal(num_nodes as nat)],
            ),
            GraphError::OffsetsLength { got, expected } => tells(
                e.text(),
                seq![decimal(got as nat), decimal(expected as nat)],
            ),
            GraphError::FirstOffset { offset } => tells(
                e.text(),
                seq![decimal(offset as nat)],
            ),
            GraphError::OffsetDescends { index, offset, previous } => tells(
                e.text(),
                seq![decimal(index as nat), decimal(offset as nat), decimal(previous as nat)],
            ),
            GraphError::EdgesLength { got, expected } => tells(
                e.text(),
                seq![decimal(got as nat), decimal(expected as nat)],
            ),
            GraphError::WeightsLength { got, expected } => tells(
                e.text(),
                seq![decimal(got as nat), decimal(expected as nat)],
            ),
            GraphError::EdgeOutOfRange { node, num_nodes } => tells(
                e.text(),
                seq![decimal(node as nat), decimal(num_nodes as nat)],
            ),
            GraphError::EdgesOutOfRange { num_nodes } => tells(
                e.text(),
                seq![decimal(num_nodes as nat)],
            ),
            GraphError::PermutationOutOfRange { node } => tells(
                e.text(),
                seq![decimal(node as nat)],
            ),
            GraphError::PermutationDuplicate { node } => tells(
                e.text(),
                seq![decimal(node as nat)],
            ),
            _ => true,
        },
{
    match e {
        GraphError::WeightsPerEdge { got, expected } => {
            lemma_tells_two(
                e.text(),
                "weights length "@,
                decimal(got as nat),
                " doesn't match edges length "@,
                decimal(expected as nat),
                Seq::<char>::empty(),
            );
        },
        GraphError::ColumnLength { src, dst } => {
            lemma_tells_two(
                e.text(),
                "src length "@,
                decimal(src as nat),
                " doesn't match dst length "@,
                decimal(dst as nat),
                Seq::<char>::empty(),
            );
        },
        GraphError::SourceOutOfRange { node, num_nodes } => {
            lemma_tells_two(
                e.text(),
                "source node "@,
                decimal(node as nat),
                " exceeds num_nodes "@,
                decimal(num_nodes as nat),
                Seq::<char>::empty(),
            );
        },
        GraphError::DestinationOutOfRange { node, num_nodes } => {
            lemma_tells_two(
                e.text(),
                "destination node "@,
                decimal(node as nat),
                " exceeds num_nodes "@,
                decimal(num_nodes as nat),
                Seq::<char>::empty(),
            );
        },
        GraphError::OffsetsLength { got, expected } => {
            lemma_tells_two(
                e.text(),
                "offsets length "@,
                decimal(got as nat),
                " should be num_nodes + 1 = "@,
                decimal(expected as nat),
                Seq::<char>::empty(),
            );
        },
        GraphError::FirstOffset { offset } => {
            lemma_tells_one(
                e.text(),
                "first offset should be 0, got "@,
                decimal(offset as nat),
                Seq::<char>::empty(),
            );
        },
        GraphError::OffsetDescends { index, offset, previous } => {
            lemma_tells_three(
                e.text(),
                "offsets not monotonic at index "@,
                decimal(index as nat),
                ": "@,
                decimal(offset as nat),
                " < "@,
                decimal(previous as nat),
                Seq::<char>::empty(),
            );
        },
        GraphError::EdgesLength { got, expected } => {
            lemma_tells_two(
                e.text(),
                "edges array length "@,
                decimal(got as nat),
                " doesn't match num_edges "@,
                decimal(expected as nat),
                Seq::<char>::empty(),
            );
        },
        GraphError::WeightsLength { got, expected } => {
            lemma_tells_two(
                e.text(),
                "weights length "@,
                decimal(got as nat),
                " doesn't match num_edges "@,
                decimal(expected as nat),
                Seq::<char>::empty(),
            );
        },
        GraphError::EdgeOutOfRange { node, num_nodes } => {
            lemma_tells_two(
                e.text(),
                "edge destination "@,
                decimal(node as nat),
                " out of range [0, "@,
                decimal(num_nodes as nat),
                ")"@,
            );
        },
        GraphError::EdgesOutOfRange { num_nodes } => {
            lemma_tells_one(
                e.text(),
                "some edge destinations are out of range [0, "@,
                decimal(num_nodes as nat),
                ")"@,
            );
        },
        GraphError::PermutationOutOfRange { node } => {
            lemma_tells_one(
                e.text(),
                "out-of-range node "@,
                decimal(node as nat),
                Seq::<char>::empty(),
            );
        },
        GraphError::PermutationDuplicate { node } => {
            lemma_tells_one(
                e.text(),
                "duplicate node "@,
                decimal(node as nat),
                Seq::<char>::empty(),
            );
        },
        _ => {},
    }
}

} // verus!
