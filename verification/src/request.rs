//! The parameters of a browse request, and the fixed shape of the request
//! the crawler issues for every node it expands.

use vstd::prelude::*;

use crate::node::{Identifier, NodeId};

verus! {

/// The identifier, in namespace zero, of the reference type that stands
/// for every hierarchical reference.
pub const HIERARCHICAL_REFERENCES: u64 = 33;

/// Which directions of a node's references a browse asks for.
#[derive(Clone, Copy, PartialEq, Eq, Structural, Debug)]
pub enum BrowseDirection {
    Forward,
    Inverse,
    Both,
}

/// A bitmask selecting node classes; one bit per class code.
#[derive(Clone, Copy, PartialEq, Eq, Structural, Debug)]
pub struct NodeClassMask {
    pub bits: u32,
}

impl NodeClassMask {
    /// The mask selecting every node class: all eight class bits set.
    pub fn all() -> (m: NodeClassMask)
        ensures
            m.bits == 255,
    {
        NodeClassMask { bits: 255 }
    }

    pub fn bits(&self) -> (b: u32)
        ensures
            b == self.bits,
    {
        self.bits
    }
}

/// A bitmask selecting which descriptive fields a browse result carries;
/// six fields are defined.
#[derive(Clone, Copy, PartialEq, Eq, Structural, Debug)]
pub struct ResultMask {
    pub bits: u32,
}

impl ResultMask {
    /// The mask selecting every descriptive field: all six field bits set.
    pub fn all() -> (m: ResultMask)
        ensures
            m.bits == 63,
    {
        ResultMask { bits: 63 }
    }

    pub fn bits(&self) -> (b: u32)
        ensures
            b == self.bits,
    {
        self.bits
    }
}

/// Everything a browse request for one node says.
pub struct BrowseRequest {
    pub node_id: NodeId,
    pub direction: BrowseDirection,
    pub reference_filter: NodeId,
    pub include_subtypes: bool,
    pub node_class_mask: NodeClassMask,
    pub result_mask: ResultMask,
}

impl BrowseRequest {
    /// The request the crawler issues for each node it expands: references
    /// in both directions, filtered to hierarchical references and their
    /// subtypes, every node class, every descriptive field.
    pub fn for_node(node_id: NodeId) -> (r: BrowseRequest)
        ensures
            r.node_id == node_id,
            r.direction == BrowseDirection::Both,
            r.reference_filter@.namespace == 0,
            r.reference_filter@.identifier
                == crate::node::IdentifierView::Numeric(HIERARCHICAL_REFERENCES),
            r.include_subtypes,
            r.node_class_mask.bits == 255,
            r.result_mask.bits == 63,
    {
        BrowseRequest {
            node_id,
            direction: BrowseDirection::Both,
            reference_filter: NodeId {
                namespace: 0,
                identifier: Identifier::Numeric(HIERARCHICAL_REFERENCES),
            },
            include_subtypes: true,
            node_class_mask: NodeClassMask::all(),
            result_mask: ResultMask::all(),
        }
    }
}

} // verus!
