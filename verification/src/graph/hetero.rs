//! Heterogeneous graph: one CSR graph per edge type, plus type metadata.
//!
//! Each edge type's graph uses node ids that are local to the node types: sources
//! are ids of the source type and destinations ids of the destination type.
use vstd::prelude::*;
use vstd::string::StringExecFns;
use crate::text::{decimal, lemma_tells_one, lemma_tells_three, push_decimal, tells};
use super::csr::{Graph, GraphView};

verus! {

/// Integer identifier for a node type.
pub type NodeTypeId = u8;

/// Integer identifier for an edge type.
pub type EdgeTypeId = u8;

/// Most types of either sort that a graph can have.
pub const MAX_TYPES: usize = 255;

/// Metadata for a node type.
#[derive(Debug, Clone)]
pub struct NodeTypeMeta {
    pub name: String,
    pub count: usize,
}

/// Metadata for an edge type (source type, relation, destination type).
#[derive(Debug, Clone)]
pub struct EdgeTypeMeta {
    pub src_type: NodeTypeId,
    pub relation: String,
    pub dst_type: NodeTypeId,
}

/// A node type in the model.
pub struct NodeTypeView {
    pub name: Seq<char>,
    pub count: nat,
}

/// An edge type in the model.
pub struct EdgeTypeView {
    pub src_type: nat,
    pub relation: Seq<char>,
    pub dst_type: nat,
}

impl View for NodeTypeMeta {
    type V = NodeTypeView;

    open spec fn view(&self) -> NodeTypeView {
        NodeTypeView { name: self.name@, count: self.count as nat }
    }
}

impl View for EdgeTypeMeta {
    type V = EdgeTypeView;

    open spec fn view(&self) -> EdgeTypeView {
        EdgeTypeView {
            src_type: self.src_type as nat,
            relation: self.relation@,
            dst_type: self.dst_type as nat,
        }
    }
}

/// What a heterogeneous graph holds.
#[verifier::ext_equal]
pub struct HeteroView {
    pub node_types: Seq<NodeTypeView>,
    pub edge_types: Seq<EdgeTypeView>,
    pub graphs: Seq<GraphView>,
}

impl HeteroView {
    /// Types fit their ids, names and triples are unique, edge types join node
    /// types of the graph, and each has its CSR graph.
    pub open spec fn wf(self) -> bool {
        &&& self.node_types.len() <= MAX_TYPES
        &&& self.edge_types.len() <= MAX_TYPES
        &&& self.graphs.len() == self.edge_types.len()
        &&& forall|i: int, j: int|
            0 <= i < j < self.node_types.len() ==> self.node_types[i].name
                != self.node_types[j].name
        &&& forall|i: int|
            0 <= i < self.edge_types.len() ==> (#[trigger] self.edge_types[i]).src_type
                < self.node_types.len() && self.edge_types[i].dst_type < self.node_types.len()
        &&& forall|i: int, j: int|
            0 <= i < j < self.edge_types.len() ==> self.edge_types[i] != self.edge_types[j]
    }

    /// The type `i` is the one called `name`.
    pub open spec fn names_node_type(self, name: Seq<char>, i: int) -> bool {
        0 <= i < self.node_types.len() && self.node_types[i].name == name
    }

    /// The edge type `i` is the one called `(src, rel, dst)`.
    pub open spec fn names_edge_type(
        self,
        src: Seq<char>,
        rel: Seq<char>,
        dst: Seq<char>,
        i: int,
    ) -> bool {
        &&& 0 <= i < self.edge_types.len()
        &&& self.node_types[self.edge_types[i].src_type as int].name == src
        &&& self.edge_types[i].relation == rel
        &&& self.node_types[self.edge_types[i].dst_type as int].name == dst
    }

    /// Nodes of the first `k` node types.
    pub open spec fn nodes_below(self, k: nat) -> nat
        decreases k,
    {
        if k == 0 {
            0
        } else {
            self.nodes_below((k - 1) as nat) + self.node_types[k - 1].count
        }
    }

    /// Edges of the first `k` edge types.
    pub open spec fn edges_below(self, k: nat) -> nat
        decreases k,
    {
        if k == 0 {
            0
        } else {
            self.edges_below((k - 1) as nat) + self.graphs[k - 1].num_edges
        }
    }

    /// Of the first `k` edge types, those that start at `src_type`, ascending.
    pub open spec fn edge_types_from(self, src_type: nat, k: nat) -> Seq<u8>
        decreases k,
    {
        if k == 0 {
            Seq::empty()
        } else {
            let before = self.edge_types_from(src_type, (k - 1) as nat);
            if self.edge_types[k - 1].src_type == src_type {
                before.push((k - 1) as u8)
            } else {
                before
            }
        }
    }
}

/// Why a heterogeneous graph could not be built.
#[derive(Debug, Clone, PartialEq, Eq)]
pub enum HeteroBuildError {
    TooManyNodeTypes(usize),
    TooManyEdgeTypes(usize),
    UnknownNodeType(String),
    /// A node type name appeared more than once.
    DuplicateNodeType(String),
    /// An edge type (src, relation, dst) triple appeared more than once.
    DuplicateEdgeType(String, String, String),
}

impl HeteroBuildError {
    /// The text of the message.
    pub open spec fn text(self) -> Seq<char> {
        match self {
            HeteroBuildError::TooManyNodeTypes(n) => "too many node types ("@ + decimal(n as nat)
                + ", max 255)"@,
            HeteroBuildError::TooManyEdgeTypes(n) => "too many edge types ("@ + decimal(n as nat)
                + ", max 255)"@,
            HeteroBuildError::UnknownNodeType(name) => "unknown node type: "@ + name@,
            HeteroBuildError::DuplicateNodeType(name) => "duplicate node type: "@ + name@,
            HeteroBuildError::DuplicateEdgeType(src, rel, dst) => "duplicate edge type: ("@ + src@
                + ", "@ + rel@ + ", "@ + dst@ + ")"@,
        }
    }

    /// Describes the error.
    pub fn message(&self) -> (s: String)
        ensures
            s@ == self.text(),
    {
        match self {
            HeteroBuildError::TooManyNodeTypes(n) => {
                let mut s = String::from_str("too many node types (");
                push_decimal(&mut s, *n as u64);
                s.append(", max 255)");
                s
            },
            HeteroBuildError::TooManyEdgeTypes(n) => {
                let mut s = String::from_str("too many edge types (");
                push_decimal(&mut s, *n as u64);
                s.append(", max 255)");
                s
            },
            HeteroBuildError::UnknownNodeType(name) => {
                let mut s = String::from_str("unknown node type: ");
                s.append(name.as_str());
                s
            },
            HeteroBuildError::DuplicateNodeType(name) => {
                let mut s = String::from_str("duplicate node type: ");
                s.append(name.as_str());
                s
            },
            HeteroBuildError::DuplicateEdgeType(src, rel, dst) => {
                let mut s = String::from_str("duplicate edge type: (");
                s.append(src.as_str());
                s.append(", ");
                s.append(rel.as_str());
                s.append(", ");
                s.append(dst.as_str());
                s.append(")");
                s
            },
        }
    }
}

/// The node types that a builder is given.
pub type NodePart = (String, usize);

/// The edge types that a builder is given: source type, relation, destination
/// type and graph.
pub type EdgePart = (String, String, String, Graph);

/// No earlier node type has the name of type `i`.
pub open spec fn new_name(nodes: Seq<NodePart>, i: int) -> bool {
    forall|j: int| 0 <= j < i ==> (#[trigger] nodes[j]).0@ != nodes[i].0@
}

/// Some node type is called `name`.
pub open spec fn known(nodes: Seq<NodePart>, name: Seq<char>) -> bool {
    exists|j: int| 0 <= j < nodes.len() && (#[trigger] nodes[j]).0@ == name
}

/// No earlier edge type joins the same types by the same relation.
pub open spec fn new_triple(edges: Seq<EdgePart>, i: int) -> bool {
    forall|j: int|
        0 <= j < i ==> !((#[trigger] edges[j]).0@ == edges[i].0@ && edges[j].1@ == edges[i].1@
            && edges[j].2@ == edges[i].2@)
}

/// Edge type `i` joins node types that exist and is not there yet.
pub open spec fn good_edge_part(nodes: Seq<NodePart>, edges: Seq<EdgePart>, i: int) -> bool {
    known(nodes, edges[i].0@) && known(nodes, edges[i].2@) && new_triple(edges, i)
}

/// The first node type whose name is taken.
pub open spec fn first_bad_name(nodes: Seq<NodePart>, i: int) -> bool {
    &&& 0 <= i < nodes.len()
    &&& !new_name(nodes, i)
    &&& forall|k: int| 0 <= k < i ==> #[trigger] new_name(nodes, k)
}

/// The first edge type that cannot be added.
pub open spec fn first_bad_edge_part(nodes: Seq<NodePart>, edges: Seq<EdgePart>, i: int) -> bool {
    &&& 0 <= i < edges.len()
    &&& !good_edge_part(nodes, edges, i)
    &&& forall|k: int| 0 <= k < i ==> #[trigger] good_edge_part(nodes, edges, k)
}

/// All names are distinct.
pub open spec fn names_distinct(nodes: Seq<NodePart>) -> bool {
    forall|k: int| 0 <= k < nodes.len() ==> #[trigger] new_name(nodes, k)
}

/// The parts make up the graph `h`.
pub open spec fn is_made_of(h: HeteroView, nodes: Seq<NodePart>, edges: Seq<EdgePart>) -> bool {
    &&& h.node_types.len() == nodes.len()
    &&& forall|i: int|
        0 <= i < nodes.len() ==> (#[trigger] h.node_types[i]) == (NodeTypeView {
            name: nodes[i].0@,
            count: nodes[i].1 as nat,
        })
    &&& h.edge_types.len() == edges.len()
    &&& h.graphs.len() == edges.len()
    &&& forall|i: int|
        0 <= i < edges.len() ==> {
            &&& h.names_node_type(edges[i].0@, (#[trigger] h.edge_types[i]).src_type as int)
            &&& h.edge_types[i].relation == edges[i].1@
            &&& h.names_node_type(edges[i].2@, h.edge_types[i].dst_type as int)
        }
    &&& forall|i: int| 0 <= i < edges.len() ==> #[trigger] h.graphs[i] == edges[i].3@
}

/// What building from parts comes to.
pub open spec fn hetero_result(
    nodes: Seq<NodePart>,
    edges: Seq<EdgePart>,
    r: Result<HeteroGraph, HeteroBuildError>,
) -> bool {
    if nodes.len() > MAX_TYPES {
        r matches Err(HeteroBuildError::TooManyNodeTypes(n)) && n == nodes.len()
    } else if edges.len() > MAX_TYPES {
        r matches Err(HeteroBuildError::TooManyEdgeTypes(n)) && n == edges.len()
    } else if !names_distinct(nodes) {
        r matches Err(HeteroBuildError::DuplicateNodeType(name)) && exists|i: int| #[trigger]
            first_bad_name(nodes, i) && name@ == nodes[i].0@
    } else if exists|i: int| first_bad_edge_part(nodes, edges, i) {
        let i = choose|i: int| first_bad_edge_part(nodes, edges, i);
        if !known(nodes, edges[i].0@) {
            r matches Err(HeteroBuildError::UnknownNodeType(name)) && name@ == edges[i].0@
        } else if !known(nodes, edges[i].2@) {
            r matches Err(HeteroBuildError::UnknownNodeType(name)) && name@ == edges[i].2@
        } else {
            r matches Err(HeteroBuildError::DuplicateEdgeType(src, rel, dst)) && src@
                == edges[i].0@ && rel@ == edges[i].1@ && dst@ == edges[i].2@
        }
    } else {
        r matches Ok(h) && h@.wf() && is_made_of(h@, nodes, edges)
    }
}

/// A heterogeneous graph.
#[derive(Debug, Clone)]
pub struct HeteroGraph {
    node_types: Vec<NodeTypeMeta>,
    edge_types: Vec<EdgeTypeMeta>,
    csr_graphs: Vec<Graph>,
}

impl View for HeteroGraph {
    type V = HeteroView;

    closed spec fn view(&self) -> HeteroView {
        HeteroView {
            node_types: Seq::new(self.node_types@.len(), |i: int| self.node_types@[i]@),
            edge_types: Seq::new(self.edge_types@.len(), |i: int| self.edge_types@[i]@),
            graphs: Seq::new(self.csr_graphs@.len(), |i: int| self.csr_graphs@[i]@),
        }
    }
}

/// Finds the node type called `name`.
fn find_part(nodes: &Vec<NodePart>, name: &String) -> (found: Option<usize>)
    ensures
        match found {
            Some(i) => i < nodes@.len() && nodes@[i as int].0@ == name@,
            None => !known(nodes@, name@),
        },
{
    let mut i: usize = 0;
    while i < nodes.len()
        invariant
            i <= nodes@.len(),
            forall|j: int| 0 <= j < i ==> (#[trigger] nodes@[j]).0@ != name@,
        decreases nodes@.len() - i,
    {
        if nodes[i].0 == *name {
            return Some(i);
        }
        i += 1;
    }
    None
}

/// Whether an earlier entry has the name of entry `i`.
fn name_taken(nodes: &Vec<NodePart>, i: usize) -> (b: bool)
    requires
        i < nodes@.len(),
    ensures
        b == !new_name(nodes@, i as int),
{
    let mut j: usize = 0;
    while j < i
        invariant
            j <= i < nodes@.len(),
            forall|k: int| 0 <= k < j ==> (#[trigger] nodes@[k]).0@ != nodes@[i as int].0@,
        decreases i - j,
    {
        if nodes[j].0 == nodes[i].0 {
            return true;
        }
        j += 1;
    }
    false
}

/// Whether an earlier entry has the triple of entry `i`.
fn triple_taken(edges: &Vec<EdgePart>, i: usize) -> (b: bool)
    requires
        i < edges@.len(),
    ensures
        b == !new_triple(edges@, i as int),
{
    let mut j: usize = 0;
    while j < i
        invariant
            j <= i < edges@.len(),
            forall|k: int|
                0 <= k < j ==> !((#[trigger] edges@[k]).0@ == edges@[i as int].0@ && edges@[k].1@
                    == edges@[i as int].1@ && edges@[k].2@ == edges@[i as int].2@),
        decreases i - j,
    {
        if edges[j].0 == edges[i].0 && edges[j].1 == edges[i].1 && edges[j].2 == edges[i].2 {
            return true;
        }
        j += 1;
    }
    false
}

impl HeteroGraph {
    /// Builds a heterogeneous graph from node types (name and count) and edge
    /// types (source type name, relation, destination type name and graph).
    pub fn try_from_parts(node_types: Vec<NodePart>, edge_types: Vec<EdgePart>) -> (r: Result<
        HeteroGraph,
        HeteroBuildError,
    >)
        ensures
            hetero_result(node_types@, edge_types@, r),
    {
        if node_types.len() > MAX_TYPES {
            return Err(HeteroBuildError::TooManyNodeTypes(node_types.len()));
        }
        if edge_types.len() > MAX_TYPES {
            return Err(HeteroBuildError::TooManyEdgeTypes(edge_types.len()));
        }
        let ghost nodes = node_types@;
        let ghost edges = edge_types@;
        let mut node_metas: Vec<NodeTypeMeta> = Vec::with_capacity(node_types.len());
        let mut i: usize = 0;
        while i < node_types.len()
            invariant
                i <= node_types@.len() <= MAX_TYPES,
                edge_types@.len() <= MAX_TYPES,
                nodes == node_types@,
                node_metas@.len() == i,
                forall|k: int| 0 <= k < i ==> #[trigger] new_name(nodes, k),
                forall|k: int|
                    0 <= k < i ==> (#[trigger] node_metas@[k]).name@ == nodes[k].0@
                        && node_metas@[k].count == nodes[k].1,
            decreases node_types@.len() - i,
        {
            if name_taken(&node_types, i) {
                assert(first_bad_name(nodes, i as int));
                return Err(HeteroBuildError::DuplicateNodeType(node_types[i].0.clone()));
            }
            node_metas.push(
                NodeTypeMeta { name: node_types[i].0.clone(), count: node_types[i].1 },
            );
            i += 1;
        }
        assert(names_distinct(nodes));
        let mut edge_metas: Vec<EdgeTypeMeta> = Vec::with_capacity(edge_types.len());
        let mut i: usize = 0;
        while i < edge_types.len()
            invariant
                i <= edge_types@.len() <= MAX_TYPES,
                node_types@.len() <= MAX_TYPES,
                nodes == node_types@,
                edges == edge_types@,
                names_distinct(nodes),
                edge_metas@.len() == i,
                forall|k: int| 0 <= k < i ==> #[trigger] good_edge_part(nodes, edges, k),
                forall|k: int|
                    0 <= k < i ==> {
                        let m = #[trigger] edge_metas@[k];
                        &&& m.src_type < nodes.len() && nodes[m.src_type as int].0@ == edges[k].0@
                        &&& m.relation@ == edges[k].1@
                        &&& m.dst_type < nodes.len() && nodes[m.dst_type as int].0@ == edges[k].2@
                    },
            decreases edge_types@.len() - i,
        {
            let src = match find_part(&node_types, &edge_types[i].0) {
                Some(id) => id,
                None => {
                    proof {
                        lemma_first_bad_unique(nodes, edges, i as int);
                    }
                    return Err(HeteroBuildError::UnknownNodeType(edge_types[i].0.clone()));
                },
            };
            assert(known(nodes, edges[i as int].0@));
            let dst = match find_part(&node_types, &edge_types[i].2) {
                Some(id) => id,
                None => {
                    proof {
                        lemma_first_bad_unique(nodes, edges, i as int);
                    }
                    return Err(HeteroBuildError::UnknownNodeType(edge_types[i].2.clone()));
                },
            };
            assert(known(nodes, edges[i as int].2@));
            if triple_taken(&edge_types, i) {
                proof {
                    lemma_first_bad_unique(nodes, edges, i as int);
                }
                return Err(
                    HeteroBuildError::DuplicateEdgeType(
                        edge_types[i].0.clone(),
                        edge_types[i].1.clone(),
                        edge_types[i].2.clone(),
                    ),
                );
            }
            assert(good_edge_part(nodes, edges, i as int));
            edge_metas.push(
                EdgeTypeMeta {
                    src_type: src as u8,
                    relation: edge_types[i].1.clone(),
                    dst_type: dst as u8,
                },
            );
            i += 1;
        }
        let csr_graphs = take_graphs(edge_types);
        let h = HeteroGraph { node_types: node_metas, edge_types: edge_metas, csr_graphs };
        proof {
            assert forall|i: int| 0 <= i < nodes.len() implies (#[trigger] h@.node_types[i])
                == (NodeTypeView { name: nodes[i].0@, count: nodes[i].1 as nat }) by {
                assert(h.node_types@[i].name@ == nodes[i].0@);
            }
            assert forall|i: int, j: int| 0 <= i < j < nodes.len() implies h@.node_types[i].name
                != h@.node_types[j].name by {
                assert(new_name(nodes, j));
                assert(nodes[i].0@ != nodes[j].0@);
            }
            assert forall|i: int| 0 <= i < edges.len() implies {
                &&& h@.names_node_type(edges[i].0@, (#[trigger] h@.edge_types[i]).src_type as int)
                &&& h@.edge_types[i].relation == edges[i].1@
                &&& h@.names_node_type(edges[i].2@, h@.edge_types[i].dst_type as int)
            } by {
                assert(h@.edge_types[i] == h.edge_types@[i]@);
            }
            assert forall|i: int, j: int| 0 <= i < j < edges.len() implies h@.edge_types[i]
                != h@.edge_types[j] by {
                assert(good_edge_part(nodes, edges, j));
                assert(new_triple(edges, j));
                assert(edges[i].0@ == edges[i].0@);
            }
            assert(h@.wf());
            assert(is_made_of(h@, nodes, edges));
            assert(!(exists|i: int| first_bad_edge_part(nodes, edges, i)));
        }
        Ok(h)
    }

    /// Builds a heterogeneous graph from parts that are known to fit.
    pub fn from_parts(node_types: Vec<NodePart>, edge_types: Vec<EdgePart>) -> (h: HeteroGraph)
        requires
            node_types@.len() <= MAX_TYPES,
            edge_types@.len() <= MAX_TYPES,
            names_distinct(node_types@),
            forall|k: int|
                0 <= k < edge_types@.len() ==> #[trigger] good_edge_part(
                    node_types@,
                    edge_types@,
                    k,
                ),
        ensures
            h@.wf(),
            is_made_of(h@, node_types@, edge_types@),
    {
        let ghost nodes = node_types@;
        let ghost edges = edge_types@;
        let r = HeteroGraph::try_from_parts(node_types, edge_types);
        assert(!(exists|i: int| first_bad_edge_part(nodes, edges, i)));
        match r {
            Ok(h) => h,
            Err(_) => vstd::pervasive::unreached(),
        }
    }

    /// Looks up a node type id by name.
    pub fn node_type_id(&self, name: &str) -> (id: Option<NodeTypeId>)
        requires
            self@.wf(),
        ensures
            match id {
                Some(i) => self@.names_node_type(name@, i as int),
                None => forall|i: int| !self@.names_node_type(name@, i),
            },
            match id {
                Some(i) => i < self@.node_types.len() && self@.node_types[i as int].name == name@,
                None => forall|i: int|
                    0 <= i < self@.node_types.len() ==> (#[trigger] self@.node_types[i]).name
                        != name@,
            },
    {
        let wanted = name.to_owned();
        let mut i: usize = 0;
        while i < self.node_types.len()
            invariant
                i <= self.node_types@.len() <= MAX_TYPES,
                wanted@ == name@,
                forall|k: int| 0 <= k < i ==> (#[trigger] self.node_types@[k]).name@ != name@,
            decreases self.node_types@.len() - i,
        {
            if self.node_types[i].name == wanted {
                return Some(i as u8);
            }
            i += 1;
        }
        assert forall|k: int| !self@.names_node_type(name@, k) by {
            if 0 <= k < self@.node_types.len() {
                assert(self@.node_types[k].name == self.node_types@[k].name@);
            }
        }
        assert forall|k: int| 0 <= k < self@.node_types.len() implies (
        #[trigger] self@.node_types[k]).name != name@ by {
            assert(!self@.names_node_type(name@, k));
        }
        None
    }

    /// Looks up an edge type id by the names of its types and its relation.
    pub fn edge_type_id(&self, src: &str, rel: &str, dst: &str) -> (id: Option<EdgeTypeId>)
        requires
            self@.wf(),
        ensures
            match id {
                Some(i) => self@.names_edge_type(src@, rel@, dst@, i as int),
                None => forall|i: int| !self@.names_edge_type(src@, rel@, dst@, i),
            },
            match id {
                Some(i) => {
                    let e = self@.edge_types[i as int];
                    &&& i < self@.edge_types.len()
                    &&& self@.node_types[e.src_type as int].name == src@
                    &&& e.relation == rel@
                    &&& self@.node_types[e.dst_type as int].name == dst@
                },
                None => forall|i: int|
                    0 <= i < self@.edge_types.len() ==> (#[trigger] self@.edge_types[i]).relation
                        != rel@ || self@.node_types[self@.edge_types[i].src_type as int].name
                        != src@ || self@.node_types[self@.edge_types[i].dst_type as int].name
                        != dst@,
            },
    {
        let relation = rel.to_owned();
        let src_name = src.to_owned();
        let dst_name = dst.to_owned();
        let mut i: usize = 0;
        while i < self.edge_types.len()
            invariant
                i <= self.edge_types@.len() <= MAX_TYPES,
                self@.wf(),
                src_name@ == src@,
                relation@ == rel@,
                dst_name@ == dst@,
                forall|k: int| 0 <= k < i ==> !self@.names_edge_type(src@, rel@, dst@, k),
            decreases self.edge_types@.len() - i,
        {
            assert(self@.edge_types[i as int] == self.edge_types@[i as int]@);
            let s = self.edge_types[i].src_type as usize;
            let d = self.edge_types[i].dst_type as usize;
            assert(self@.node_types[s as int] == self.node_types@[s as int]@);
            assert(self@.node_types[d as int] == self.node_types@[d as int]@);
            if self.edge_types[i].relation == relation && self.node_types[s].name == src_name
                && self.node_types[d].name == dst_name {
                return Some(i as u8);
            }
            i += 1;
        }
        assert forall|k: int| 0 <= k < self@.edge_types.len() implies (
        #[trigger] self@.edge_types[k]).relation != rel@
            || self@.node_types[self@.edge_types[k].src_type as int].name != src@
            || self@.node_types[self@.edge_types[k].dst_type as int].name != dst@ by {
            assert(!self@.names_edge_type(src@, rel@, dst@, k));
        }
        None
    }

    /// Gets metadata for a node type.
    pub fn node_type_meta(&self, id: NodeTypeId) -> (m: &NodeTypeMeta)
        requires
            id < self@.node_types.len(),
        ensures
            m@ == self@.node_types[id as int],
    {
        &self.node_types[id as usize]
    }

    /// Gets metadata for an edge type.
    pub fn edge_type_meta(&self, id: EdgeTypeId) -> (m: &EdgeTypeMeta)
        requires
            id < self@.edge_types.len(),
        ensures
            m@ == self@.edge_types[id as int],
    {
        &self.edge_types[id as usize]
    }

    /// Gets the CSR graph for an edge type.
    pub fn csr(&self, edge_type: EdgeTypeId) -> (g: &Graph)
        requires
            edge_type < self@.graphs.len(),
        ensures
            g@ == self@.graphs[edge_type as int],
    {
        &self.csr_graphs[edge_type as usize]
    }

    /// Number of nodes of a given type.
    pub fn num_nodes(&self, node_type: NodeTypeId) -> (n: usize)
        requires
            node_type < self@.node_types.len(),
        ensures
            n == self@.node_types[node_type as int].count,
    {
        self.node_types[node_type as usize].count
    }

    /// Number of edges of a given edge type.
    pub fn num_edges(&self, edge_type: EdgeTypeId) -> (n: usize)
        requires
            edge_type < self@.graphs.len(),
        ensures
            n == self@.graphs[edge_type as int].num_edges,
    {
        self.csr_graphs[edge_type as usize].num_edges()
    }

    /// Total number of nodes across all types.
    pub fn total_nodes(&self) -> (n: usize)
        requires
            self@.nodes_below(self@.node_types.len()) <= usize::MAX,
        ensures
            n == self@.nodes_below(self@.node_types.len()),
    {
        let mut total: usize = 0;
        let mut i: usize = 0;
        while i < self.node_types.len()
            invariant
                i <= self.node_types@.len(),
                self@.nodes_below(self@.node_types.len()) <= usize::MAX,
                total == self@.nodes_below(i as nat),
            decreases self.node_types@.len() - i,
        {
            proof {
                lemma_nodes_below_grow(self@, (i + 1) as nat, self@.node_types.len());
                assert(self@.node_types[i as int] == self.node_types@[i as int]@);
            }
            total += self.node_types[i].count;
            i += 1;
        }
        total
    }

    /// Total number of edges across all edge types.
    pub fn total_edges(&self) -> (n: usize)
        requires
            self@.edges_below(self@.graphs.len()) <= usize::MAX,
        ensures
            n == self@.edges_below(self@.graphs.len()),
    {
        let mut total: usize = 0;
        let mut i: usize = 0;
        while i < self.csr_graphs.len()
            invariant
                i <= self.csr_graphs@.len(),
                self@.edges_below(self@.graphs.len()) <= usize::MAX,
                total == self@.edges_below(i as nat),
            decreases self.csr_graphs@.len() - i,
        {
            proof {
                lemma_edges_below_grow(self@, (i + 1) as nat, self@.graphs.len());
                assert(self@.graphs[i as int] == self.csr_graphs@[i as int]@);
            }
            total += self.csr_graphs[i].num_edges();
            i += 1;
        }
        total
    }

    /// Number of node types.
    pub fn node_type_count(&self) -> (n: usize)
        ensures
            n == self@.node_types.len(),
    {
        self.node_types.len()
    }

    /// Number of edge types.
    pub fn edge_type_count(&self) -> (n: usize)
        ensures
            n == self@.edge_types.len(),
    {
        self.edge_types.len()
    }

    /// Names of all node types.
    pub fn node_type_names(&self) -> (names: Vec<&str>)
        ensures
            names@.len() == self@.node_types.len(),
            forall|i: int|
                0 <= i < names@.len() ==> (#[trigger] names@[i])@ == self@.node_types[i].name,
    {
        let mut names: Vec<&str> = Vec::with_capacity(self.node_types.len());
        let mut i: usize = 0;
        while i < self.node_types.len()
            invariant
                i <= self.node_types@.len(),
                names@.len() == i,
                forall|k: int|
                    0 <= k < i ==> (#[trigger] names@[k])@ == self@.node_types[k].name,
            decreases self.node_types@.len() - i,
        {
            names.push(self.node_types[i].name.as_str());
            i += 1;
        }
        names
    }

    /// Names of all edge types as (src, relation, dst) triples.
    pub fn edge_type_names(&self) -> (names: Vec<(&str, &str, &str)>)
        requires
            self@.wf(),
        ensures
            names@.len() == self@.edge_types.len(),
            forall|i: int|
                0 <= i < names@.len() ==> self@.names_edge_type(
                    (#[trigger] names@[i]).0@,
                    names@[i].1@,
                    names@[i].2@,
                    i,
                ),
    {
        let mut names: Vec<(&str, &str, &str)> = Vec::with_capacity(self.edge_types.len());
        let mut i: usize = 0;
        while i < self.edge_types.len()
            invariant
                i <= self.edge_types@.len(),
                self@.wf(),
                names@.len() == i,
                forall|k: int|
                    0 <= k < i ==> self@.names_edge_type(
                        (#[trigger] names@[k]).0@,
                        names@[k].1@,
                        names@[k].2@,
                        k,
                    ),
            decreases self.edge_types@.len() - i,
        {
            assert(self@.edge_types[i as int] == self.edge_types@[i as int]@);
            let s = self.edge_types[i].src_type as usize;
            let d = self.edge_types[i].dst_type as usize;
            assert(self@.node_types[s as int] == self.node_types@[s as int]@);
            assert(self@.node_types[d as int] == self.node_types@[d as int]@);
            names.push(
                (
                    self.node_types[s].name.as_str(),
                    self.edge_types[i].relation.as_str(),
                    self.node_types[d].name.as_str(),
                ),
            );
            i += 1;
        }
        names
    }

    /// Returns all edge type ids where the given node type is the source.
    pub fn edge_types_for_src(&self, src_type: NodeTypeId) -> (ids: Vec<EdgeTypeId>)
        requires
            self@.wf(),
        ensures
            ids@ == self@.edge_types_from(src_type as nat, self@.edge_types.len()),
            forall|i: int, j: int| 0 <= i < j < ids@.len() ==> ids@[i] < ids@[j],
            forall|e: u8|
                #[trigger] ids@.contains(e) <==> e < self@.edge_types.len()
                    && self@.edge_types[e as int].src_type == src_type,
    {
        let mut ids: Vec<EdgeTypeId> = Vec::new();
        let mut i: usize = 0;
        while i < self.edge_types.len()
            invariant
                i <= self.edge_types@.len() <= MAX_TYPES,
                ids@ == self@.edge_types_from(src_type as nat, i as nat),
            decreases self.edge_types@.len() - i,
        {
            assert(self@.edge_types[i as int] == self.edge_types@[i as int]@);
            if self.edge_types[i].src_type == src_type {
                ids.push(i as u8);
            }
            i += 1;
        }
        proof {
            law_edge_types_from_source(self@, src_type as nat);
        }
        ids
    }
}

/// The edge types that start at a node type are listed in ascending order, and
/// an edge type is listed exactly if its source is that node type, whatever its
/// destination.
pub proof fn law_edge_types_from_source(h: HeteroView, src_type: nat)
    requires
        h.edge_types.len() <= MAX_TYPES,
    ensures
        ({
            let ids = h.edge_types_from(src_type, h.edge_types.len());
            &&& forall|i: int, j: int| 0 <= i < j < ids.len() ==> ids[i] < ids[j]
            &&& forall|e: u8| #[trigger]
                ids.contains(e) <==> e < h.edge_types.len() && h.edge_types[e as int].src_type
                    == src_type
        }),
{
    lemma_edge_types_from(h, src_type, h.edge_types.len());
}

proof fn lemma_edge_types_from(h: HeteroView, src_type: nat, k: nat)
    requires
        k <= h.edge_types.len() <= MAX_TYPES,
    ensures
        ({
            let ids = h.edge_types_from(src_type, k);
            &&& forall|i: int, j: int| 0 <= i < j < ids.len() ==> ids[i] < ids[j]
            &&& forall|i: int| 0 <= i < ids.len() ==> ids[i] < k
            &&& forall|e: u8| #[trigger]
                ids.contains(e) <==> e < k && h.edge_types[e as int].src_type == src_type
        }),
    decreases k,
{
    if k > 0 {
        lemma_edge_types_from(h, src_type, (k - 1) as nat);
        let before = h.edge_types_from(src_type, (k - 1) as nat);
        let ids = h.edge_types_from(src_type, k);
        assert forall|e: u8| #[trigger]
            ids.contains(e) <==> e < k && h.edge_types[e as int].src_type == src_type by {
            if ids.contains(e) {
                let i = choose|i: int| 0 <= i < ids.len() && ids[i] == e;
                if i < before.len() {
                    assert(before[i] == e);
                    assert(before.contains(e));
                }
            }
            if e < k && h.edge_types[e as int].src_type == src_type {
                if e < k - 1 {
                    assert(before.contains(e));
                    let i = choose|i: int| 0 <= i < before.len() && before[i] == e;
                    assert(ids[i] == e);
                } else {
                    assert(ids[ids.len() - 1] == e);
                }
            }
        }
    }
}

proof fn lemma_nodes_below_grow(h: HeteroView, a: nat, b: nat)
    requires
        a <= b,
    ensures
        h.nodes_below(a) <= h.nodes_below(b),
    decreases b - a,
{
    if a < b {
        lemma_nodes_below_grow(h, a, (b - 1) as nat);
    }
}

proof fn lemma_edges_below_grow(h: HeteroView, a: nat, b: nat)
    requires
        a <= b,
    ensures
        h.edges_below(a) <= h.edges_below(b),
    decreases b - a,
{
    if a < b {
        lemma_edges_below_grow(h, a, (b - 1) as nat);
    }
}

/// There is only one first edge type that cannot be added.
proof fn lemma_first_bad_unique(nodes: Seq<NodePart>, edges: Seq<EdgePart>, i: int)
    requires
        0 <= i < edges.len(),
        !good_edge_part(nodes, edges, i),
        forall|k: int| 0 <= k < i ==> #[trigger] good_edge_part(nodes, edges, k),
    ensures
        first_bad_edge_part(nodes, edges, i),
        i == (choose|i: int| first_bad_edge_part(nodes, edges, i)),
{
    assert(first_bad_edge_part(nodes, edges, i));
    let j = choose|j: int| first_bad_edge_part(nodes, edges, j);
    assert(first_bad_edge_part(nodes, edges, j));
    if j < i {
        assert(good_edge_part(nodes, edges, j));
    } else if i < j {
        assert(good_edge_part(nodes, edges, i));
    }
}

/// Moves the graphs out of the edge types, in order.
fn take_graphs(edge_types: Vec<EdgePart>) -> (graphs: Vec<Graph>)
    ensures
        graphs@.len() == edge_types@.len(),
        forall|i: int| 0 <= i < graphs@.len() ==> (#[trigger] graphs@[i])@ == edge_types@[i].3@,
{
    let ghost edges = edge_types@;
    let mut graphs: Vec<Graph> = Vec::with_capacity(edge_types.len());
    for part in it: edge_types
        invariant
            it.seq() == edges,
            graphs@.len() == it.index(),
            forall|i: int| 0 <= i < graphs@.len() ==> (#[trigger] graphs@[i])@ == edges[i].3@,
    {
        graphs.push(part.3);
    }
    graphs
}

/// Looking a node type up by the name that its metadata gives finds it again.
pub proof fn law_names_are_unique(h: HeteroView, name: Seq<char>, i: int, j: int)
    requires
        h.wf(),
        h.names_node_type(name, i),
        h.names_node_type(name, j),
    ensures
        i == j,
{
}

/// An edge type is determined by the names of its types and its relation.
pub proof fn law_edge_names_are_unique(
    h: HeteroView,
    src: Seq<char>,
    rel: Seq<char>,
    dst: Seq<char>,
    i: int,
    j: int,
)
    requires
        h.wf(),
        h.names_edge_type(src, rel, dst, i),
        h.names_edge_type(src, rel, dst, j),
    ensures
        i == j,
{
    let a = h.edge_types[i];
    let b = h.edge_types[j];
    law_names_are_unique(h, src, a.src_type as int, b.src_type as int);
    law_names_are_unique(h, dst, a.dst_type as int, b.dst_type as int);
    assert(a == b);
}

/// A heterogeneous graph is built from parts exactly if there are at most 255
/// node types and 255 edge types, no two node types have one name, both ends of
/// every edge type are named node types, and no two edge types agree in source,
/// relation and destination.
pub proof fn law_hetero_graph_is_built_when(
    nodes: Seq<NodePart>,
    edges: Seq<EdgePart>,
    r: Result<HeteroGraph, HeteroBuildError>,
)
    requires
        hetero_result(nodes, edges, r),
    ensures
        ({
            let named = |name: Seq<char>|
                exists|j: int| 0 <= j < nodes.len() && (#[trigger] nodes[j]).0@ == name;
            r is Ok <==> {
                &&& nodes.len() <= 255
                &&& edges.len() <= 255
                &&& forall|i: int, j: int|
                    0 <= i < j < nodes.len() ==> (#[trigger] nodes[i]).0@ != (
                    #[trigger] nodes[j]).0@
                &&& forall|i: int|
                    0 <= i < edges.len() ==> named((#[trigger] edges[i]).0@) && named(edges[i].2@)
                &&& forall|i: int, j: int|
                    0 <= i < j < edges.len() ==> (#[trigger] edges[i]).0@ != (
                    #[trigger] edges[j]).0@ || edges[i].1@ != edges[j].1@ || edges[i].2@
                        != edges[j].2@
            }
        }),
        nodes.len() > 255 ==> r is Err && r->Err_0 is TooManyNodeTypes,
        nodes.len() <= 255 && edges.len() > 255 ==> r is Err && r->Err_0 is TooManyEdgeTypes,
        r matches Err(HeteroBuildError::UnknownNodeType(name)) ==> {
            &&& forall|j: int| 0 <= j < nodes.len() ==> (#[trigger] nodes[j]).0@ != name@
            &&& exists|i: int|
                0 <= i < edges.len() && ((#[trigger] edges[i]).0@ == name@ || edges[i].2@ == name@)
        },
        r matches Err(HeteroBuildError::DuplicateNodeType(name)) ==> exists|i: int, j: int|
            0 <= i < j < nodes.len() && (#[trigger] nodes[i]).0@ == name@ && (
            #[trigger] nodes[j]).0@ == name@,
        r matches Err(HeteroBuildError::DuplicateEdgeType(src, rel, dst)) ==> exists|i: int, j: int|
            0 <= i < j < edges.len() && (#[trigger] edges[i]).0@ == src@ && edges[i].1@ == rel@
                && edges[i].2@ == dst@ && (#[trigger] edges[j]).0@ == src@ && edges[j].1@ == rel@
                && edges[j].2@ == dst@,
{
    let named = |name: Seq<char>|
        exists|j: int| 0 <= j < nodes.len() && (#[trigger] nodes[j]).0@ == name;
    assert(forall|name: Seq<char>| named(name) == #[trigger] known(nodes, name));
    if nodes.len() <= 255 && edges.len() <= 255 {
        if names_distinct(nodes) {
            assert forall|i: int, j: int| 0 <= i < j < nodes.len() implies (#[trigger] nodes[i]).0@
                != (#[trigger] nodes[j]).0@ by {
                assert(new_name(nodes, j));
            }
            if exists|i: int| first_bad_edge_part(nodes, edges, i) {
                let i = choose|i: int| first_bad_edge_part(nodes, edges, i);
                assert(!good_edge_part(nodes, edges, i));
                assert(known(nodes, edges[i].0@) == named(edges[i].0@));
                assert(known(nodes, edges[i].2@) == named(edges[i].2@));
                if named(edges[i].0@) && named(edges[i].2@) {
                    assert(!new_triple(edges, i));
                    let j = choose|j: int|
                        0 <= j < i && ((#[trigger] edges[j]).0@ == edges[i].0@ && edges[j].1@
                            == edges[i].1@ && edges[j].2@ == edges[i].2@);
                    assert(edges[j].0@ == edges[i].0@);
                }
            } else {
                assert forall|i: int| 0 <= i < edges.len() implies #[trigger] good_edge_part(
                    nodes,
                    edges,
                    i,
                ) by {
                    lemma_no_bad_part(nodes, edges, i);
                }
                assert forall|i: int| 0 <= i < edges.len() implies named((#[trigger] edges[i]).0@)
                    && named(edges[i].2@) by {
                    assert(good_edge_part(nodes, edges, i));
                    assert(known(nodes, edges[i].0@) && known(nodes, edges[i].2@));
                }
                assert forall|i: int, j: int| 0 <= i < j < edges.len() implies (
                #[trigger] edges[i]).0@ != (#[trigger] edges[j]).0@ || edges[i].1@ != edges[j].1@
                    || edges[i].2@ != edges[j].2@ by {
                    assert(good_edge_part(nodes, edges, j));
                }
            }
        } else {
            let k = choose|k: int| 0 <= k < nodes.len() && !#[trigger] new_name(nodes, k);
            let j = choose|j: int| 0 <= j < k && (#[trigger] nodes[j]).0@ == nodes[k].0@;
            assert(nodes[j].0@ == nodes[k].0@);
            let i = choose|i: int| #[trigger]
                first_bad_name(nodes, i) && r->Err_0->DuplicateNodeType_0@ == nodes[i].0@;
            assert(!new_name(nodes, i));
            let h = choose|h: int| 0 <= h < i && (#[trigger] nodes[h]).0@ == nodes[i].0@;
            assert(nodes[h].0@ == nodes[i].0@);
        }
    }
}

/// Where no edge type is the first that cannot be added, all can.
proof fn lemma_no_bad_part(nodes: Seq<NodePart>, edges: Seq<EdgePart>, i: int)
    requires
        0 <= i < edges.len(),
        forall|k: int| !first_bad_edge_part(nodes, edges, k),
    ensures
        good_edge_part(nodes, edges, i),
    decreases i,
{
    assert forall|k: int| 0 <= k < i implies #[trigger] good_edge_part(nodes, edges, k) by {
        lemma_no_bad_part(nodes, edges, k);
    }
    assert(!first_bad_edge_part(nodes, edges, i));
}

/// The graph that is built has the given node types and edge types in the given
/// order: names, counts, the named ends and relations, and the graphs.
pub proof fn law_hetero_graph_keeps_its_parts(
    nodes: Seq<NodePart>,
    edges: Seq<EdgePart>,
    h: HeteroView,
    i: int,
)
    requires
        is_made_of(h, nodes, edges),
    ensures
        h.node_types.len() == nodes.len(),
        h.edge_types.len() == edges.len(),
        h.graphs.len() == edges.len(),
        0 <= i < nodes.len() ==> h.node_types[i].name == nodes[i].0@ && h.node_types[i].count
            == nodes[i].1,
        0 <= i < edges.len() ==> {
            let e = h.edge_types[i];
            &&& e.src_type < nodes.len()
            &&& e.dst_type < nodes.len()
            &&& nodes[e.src_type as int].0@ == edges[i].0@
            &&& e.relation == edges[i].1@
            &&& nodes[e.dst_type as int].0@ == edges[i].2@
            &&& h.graphs[i] == edges[i].3@
        },
{
    if 0 <= i < edges.len() {
        let e = h.edge_types[i];
        assert(h.names_node_type(edges[i].0@, e.src_type as int));
        assert(h.node_types[e.src_type as int].name == nodes[e.src_type as int].0@);
        assert(h.node_types[e.dst_type as int].name == nodes[e.dst_type as int].0@);
        assert(h.graphs[i] == edges[i].3@);
    }
}

/// Totals add up: without types they are zero, and one more node type or one more
/// edge type adds its own nodes or edges to the total.
pub proof fn law_totals_add_up(h: HeteroView, t: NodeTypeView, e: EdgeTypeView, g: GraphView)
    ensures
        h.node_types.len() == 0 ==> h.nodes_below(h.node_types.len()) == 0,
        h.graphs.len() == 0 ==> h.edges_below(h.graphs.len()) == 0,
        ({
            let more = HeteroView { node_types: h.node_types.push(t), ..h };
            more.nodes_below(more.node_types.len()) == h.nodes_below(h.node_types.len()) + t.count
        }),
        ({
            let more = HeteroView {
                edge_types: h.edge_types.push(e),
                graphs: h.graphs.push(g),
                ..h
            };
            more.edges_below(more.graphs.len()) == h.edges_below(h.graphs.len()) + g.num_edges
        }),
{
    let more = HeteroView { node_types: h.node_types.push(t), ..h };
    lemma_nodes_below_same(h, more, h.node_types.len());
    let more = HeteroView { edge_types: h.edge_types.push(e), graphs: h.graphs.push(g), ..h };
    lemma_edges_below_same(h, more, h.graphs.len());
}

proof fn lemma_nodes_below_same(h: HeteroView, more: HeteroView, k: nat)
    requires
        k <= h.node_types.len() <= more.node_types.len(),
        forall|i: int| 0 <= i < h.node_types.len() ==> h.node_types[i] == more.node_types[i],
    ensures
        h.nodes_below(k) == more.nodes_below(k),
    decreases k,
{
    if k > 0 {
        lemma_nodes_below_same(h, more, (k - 1) as nat);
    }
}

proof fn lemma_edges_below_same(h: HeteroView, more: HeteroView, k: nat)
    requires
        k <= h.graphs.len() <= more.graphs.len(),
        forall|i: int| 0 <= i < h.graphs.len() ==> h.graphs[i] == more.graphs[i],
    ensures
        h.edges_below(k) == more.edges_below(k),
    decreases k,
{
    if k > 0 {
        lemma_edges_below_same(h, more, (k - 1) as nat);
    }
}

/// A message tells the number or the names of its error, in this order.
pub proof fn law_hetero_messages_tell_their_numbers(e: HeteroBuildError)
    ensures
        match e {
            HeteroBuildError::TooManyNodeTypes(n) => tells(
                e.text(),
                seq![decimal(n as nat)],
            ),
            HeteroBuildError::TooManyEdgeTypes(n) => tells(
                e.text(),
                seq![decimal(n as nat)],
            ),
            HeteroBuildError::UnknownNodeType(name) => tells(
                e.text(),
                seq![name@],
            ),
            HeteroBuildError::DuplicateNodeType(name) => tells(
                e.text(),
                seq![name@],
            ),
            HeteroBuildError::DuplicateEdgeType(src, rel, dst) => tells(
                e.text(),
                seq![src@, rel@, dst@],
            ),
        },
{
    match e {
        HeteroBuildError::TooManyNodeTypes(n) => {
            lemma_tells_one(
                e.text(),
                "too many node types ("@,
                decimal(n as nat),
                ", max 255)"@,
            );
        },
        HeteroBuildError::TooManyEdgeTypes(n) => {
            lemma_tells_one(
                e.text(),
                "too many edge types ("@,
                decimal(n as nat),
                ", max 255)"@,
            );
        },
        HeteroBuildError::UnknownNodeType(name) => {
            lemma_tells_one(
                e.text(),
                "unknown node type: "@,
                name@,
                Seq::<char>::empty(),
            );
        },
        HeteroBuildError::DuplicateNodeType(name) => {
            lemma_tells_one(
                e.text(),
                "duplicate node type: "@,
                name@,
                Seq::<char>::empty(),
            );
        },
        HeteroBuildError::DuplicateEdgeType(src, rel, dst) => {
            lemma_tells_three(
                e.text(),
                "duplicate edge type: ("@,
                src@,
                ", "@,
                rel@,
                ", "@,
                dst@,
                ")"@,
            );
        },
    }
}

} // verus!
