//! Placement of a mapping on a node of pooled memory.
use vstd::prelude::*;
use vstd::string::StringExecFns;

verus! {

/// A range that is to be bound to a node.
#[derive(Debug, Clone, Copy, PartialEq, Eq, Structural)]
pub struct CxlNumaBinding {
    /// The node.
    pub numa_node: u32,
    /// Bytes of the range.
    pub length_bytes: usize,
}

/// Why a range was not bound.
#[derive(Debug, Clone, PartialEq, Eq)]
pub enum CxlBindError {
    /// The range is empty.
    EmptyRange,
    /// Binding is not built in.
    NumaFeatureDisabled,
    /// The system refused, with its text.
    Mbind(String),
}

impl CxlNumaBinding {
    /// The binding, where the range is not empty.
    pub fn new(numa_node: u32, length_bytes: usize) -> (r: Option<Self>)
        ensures
            r == (if length_bytes == 0 {
                None
            } else {
                Some(CxlNumaBinding { numa_node, length_bytes })
            }),
    {
        if length_bytes == 0 {
            None
        } else {
            Some(CxlNumaBinding { numa_node, length_bytes })
        }
    }

    /// What binding comes to. `bound` is the answer of the system, and none where
    /// binding is not built in; an empty range is not handed to the system.
    pub fn apply(&self, bound: Option<Result<(), String>>) -> (r: Result<(), CxlBindError>)
        ensures
            r == (if self.length_bytes == 0 {
                Err(CxlBindError::EmptyRange)
            } else {
                match bound {
                    None => Err(CxlBindError::NumaFeatureDisabled),
                    Some(Ok(_)) => Ok(()),
                    Some(Err(text)) => Err(CxlBindError::Mbind(text)),
                }
            }),
    {
        if self.length_bytes == 0 {
            return Err(CxlBindError::EmptyRange);
        }
        match bound {
            None => Err(CxlBindError::NumaFeatureDisabled),
            Some(Ok(_)) => Ok(()),
            Some(Err(text)) => Err(CxlBindError::Mbind(text)),
        }
    }
}

impl CxlBindError {
    /// The text of the error.
    pub fn message(&self) -> (s: String)
        ensures
            s@ == (match *self {
                CxlBindError::EmptyRange => "CXL bind length is zero"@,
                CxlBindError::NumaFeatureDisabled => "rebuild with aethergraph-core/numa for mbind"@,
                CxlBindError::Mbind(text) => "mbind failed: "@ + text@,
            }),
    {
        match self {
            CxlBindError::EmptyRange => String::from_str("CXL bind length is zero"),
            CxlBindError::NumaFeatureDisabled => String::from_str(
                "rebuild with aethergraph-core/numa for mbind",
            ),
            CxlBindError::Mbind(text) => {
                let mut s = String::from_str("mbind failed: ");
                s.append(text.as_str());
                s
            },
        }
    }
}

} // verus!
