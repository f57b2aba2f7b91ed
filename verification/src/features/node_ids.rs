//! Integers that name nodes.
use vstd::prelude::*;
use crate::graph::csr::NodeId;

verus! {

/// A number that names a node, if it is in the range of node ids.
pub trait AsNodeId: Copy {
    /// The number.
    spec fn number(self) -> int;

    /// The node that the number names.
    fn as_node_id(self) -> (id: Option<NodeId>)
        ensures
            id == named(self.number()),
    ;
}

/// The node that a number names.
pub open spec fn named(n: int) -> Option<NodeId> {
    if 0 <= n <= u32::MAX {
        Some(n as u32)
    } else {
        None
    }
}

impl AsNodeId for u8 {
    open spec fn number(self) -> int {
        self as int
    }

    fn as_node_id(self) -> (id: Option<NodeId>) {
        Some(self as u32)
    }
}

impl AsNodeId for u16 {
    open spec fn number(self) -> int {
        self as int
    }

    fn as_node_id(self) -> (id: Option<NodeId>) {
        Some(self as u32)
    }
}

impl AsNodeId for u32 {
    open spec fn number(self) -> int {
        self as int
    }

    fn as_node_id(self) -> (id: Option<NodeId>) {
        Some(self)
    }
}

impl AsNodeId for u64 {
    open spec fn number(self) -> int {
        self as int
    }

    fn as_node_id(self) -> (id: Option<NodeId>) {
        if self <= u32::MAX as u64 {
            Some(self as u32)
        } else {
            None
        }
    }
}

impl AsNodeId for u128 {
    open spec fn number(self) -> int {
        self as int
    }

    fn as_node_id(self) -> (id: Option<NodeId>) {
        if self <= u32::MAX as u128 {
            Some(self as u32)
        } else {
            None
        }
    }
}

impl AsNodeId for usize {
    open spec fn number(self) -> int {
        self as int
    }

    fn as_node_id(self) -> (id: Option<NodeId>) {
        if self <= u32::MAX as usize {
            Some(self as u32)
        } else {
            None
        }
    }
}

impl AsNodeId for i8 {
    open spec fn number(self) -> int {
        self as int
    }

    fn as_node_id(self) -> (id: Option<NodeId>) {
        if self >= 0 {
            Some(self as u32)
        } else {
            None
        }
    }
}

impl AsNodeId for i16 {
    open spec fn number(self) -> int {
        self as int
    }

    fn as_node_id(self) -> (id: Option<NodeId>) {
        if self >= 0 {
            Some(self as u32)
        } else {
            None
        }
    }
}

impl AsNodeId for i32 {
    open spec fn number(self) -> int {
        self as int
    }

    fn as_node_id(self) -> (id: Option<NodeId>) {
        if self >= 0 {
            Some(self as u32)
        } else {
            None
        }
    }
}

impl AsNodeId for i64 {
    open spec fn number(self) -> int {
        self as int
    }

    fn as_node_id(self) -> (id: Option<NodeId>) {
        if self >= 0 && self <= u32::MAX as i64 {
            Some(self as u32)
        } else {
            None
        }
    }
}

impl AsNodeId for i128 {
    open spec fn number(self) -> int {
        self as int
    }

    fn as_node_id(self) -> (id: Option<NodeId>) {
        if self >= 0 && self <= u32::MAX as i128 {
            Some(self as u32)
        } else {
            None
        }
    }
}

impl AsNodeId for isize {
    open spec fn number(self) -> int {
        self as int
    }

    fn as_node_id(self) -> (id: Option<NodeId>) {
        if self >= 0 && self as usize <= u32::MAX as usize {
            Some(self as u32)
        } else {
            None
        }
    }
}

} // verus!
