//! Node identities and the metadata recorded for each discovered node.

use vstd::prelude::*;

verus! {

/// The category of a node in the address space.
#[derive(Clone, Copy, PartialEq, Eq, Structural, Debug)]
pub enum NodeClass {
    Unspecified,
    Object,
    Variable,
    Method,
    ObjectType,
    VariableType,
    ReferenceType,
    DataType,
    View,
}

impl NodeClass {
    /// The numeric code of this class; it is also the class's bit in a
    /// class mask.  `Unspecified` has no bit of its own and codes as zero.
    pub open spec fn spec_code(self) -> u32 {
        match self {
            NodeClass::Unspecified => 0,
            NodeClass::Object => 1,
            NodeClass::Variable => 2,
            NodeClass::Method => 4,
            NodeClass::ObjectType => 8,
            NodeClass::VariableType => 16,
            NodeClass::ReferenceType => 32,
            NodeClass::DataType => 64,
            NodeClass::View => 128,
        }
    }

    pub fn code(&self) -> (c: u32)
        ensures
            c == self.spec_code(),
    {
        match self {
            NodeClass::Unspecified => 0,
            NodeClass::Object => 1,
            NodeClass::Variable => 2,
            NodeClass::Method => 4,
            NodeClass::ObjectType => 8,
            NodeClass::VariableType => 16,
            NodeClass::ReferenceType => 32,
            NodeClass::DataType => 64,
            NodeClass::View => 128,
        }
    }
}

/// The local part of a node identity: numeric, textual, or opaque bytes.
pub enum Identifier {
    Numeric(u64),
    Text(String),
    Opaque(Vec<u8>),
}

/// Mathematical image of an [`Identifier`].
pub ghost enum IdentifierView {
    Numeric(u64),
    Text(Seq<char>),
    Opaque(Seq<u8>),
}

impl View for Identifier {
    type V = IdentifierView;

    open spec fn view(&self) -> IdentifierView {
        match self {
            Identifier::Numeric(n) => IdentifierView::Numeric(*n),
            Identifier::Text(s) => IdentifierView::Text(s@),
            Identifier::Opaque(b) => IdentifierView::Opaque(b@),
        }
    }
}

/// Identity of a node: a namespace index plus a local identifier.
/// Equality is structural; node ids are the deduplication key of the crawl.
pub struct NodeId {
    pub namespace: u16,
    pub identifier: Identifier,
}

/// Mathematical image of a [`NodeId`].
pub ghost struct NodeIdView {
    pub namespace: u16,
    pub identifier: IdentifierView,
}

impl View for NodeId {
    type V = NodeIdView;

    open spec fn view(&self) -> NodeIdView {
        NodeIdView { namespace: self.namespace, identifier: self.identifier@ }
    }
}

impl NodeId {
    /// The null identity: namespace zero, numeric identifier zero.
    pub open spec fn spec_null() -> NodeIdView {
        NodeIdView { namespace: 0, identifier: IdentifierView::Numeric(0) }
    }

    pub fn null() -> (r: NodeId)
        ensures
            r@ == NodeId::spec_null(),
    {
        NodeId { namespace: 0, identifier: Identifier::Numeric(0) }
    }

    /// Structural equality of node identities.
    pub fn eq_id(&self, other: &NodeId) -> (r: bool)
        ensures
            r == (self@ == other@),
    {
        if self.namespace != other.namespace {
            return false;
        }
        match (&self.identifier, &other.identifier) {
            (Identifier::Numeric(a), Identifier::Numeric(b)) => *a == *b,
            (Identifier::Text(a), Identifier::Text(b)) => {
                let r = *a == *b;
                proof {
                    if r {
                        assert(self@ == other@);
                    }
                }
                r
            },
            (Identifier::Opaque(a), Identifier::Opaque(b)) => {
                let r = *a == *b;
                proof {
                    if r {
                        assert(a@ =~= b@);
                    } else {
                        if a@ == b@ {
                            assert(a.len() == b.len());
                            assert(forall|i: int| 0 <= i < a.len() ==> a[i] == b[i]);
                        }
                    }
                }
                r
            },
            _ => false,
        }
    }

    /// A structural copy of this identity.
    pub fn clone_id(&self) -> (r: NodeId)
        ensures
            r@ == self@,
    {
        let identifier = match &self.identifier {
            Identifier::Numeric(n) => Identifier::Numeric(*n),
            Identifier::Text(s) => Identifier::Text(s.clone()),
            Identifier::Opaque(b) => {
                let mut copy: Vec<u8> = Vec::new();
                let mut i: usize = 0;
                while i < b.len()
                    invariant
                        i <= b.len(),
                        copy@ =~= b@.take(i as int),
                    decreases b.len() - i,
                {
                    copy.push(b[i]);
                    i = i + 1;
                }
                proof {
                    assert(copy@ =~= b@);
                }
                Identifier::Opaque(copy)
            },
        };
        NodeId { namespace: self.namespace, identifier }
    }
}

/// What the crawl records about a discovered node: its class, its display
/// name, and the identity of its type-definition target.  A record is
/// written on first discovery of its node and never changed afterwards.
pub struct NodeRecord {
    pub node_class: NodeClass,
    pub display_name: String,
    pub type_definition: NodeId,
}

/// Mathematical image of a [`NodeRecord`].
pub ghost struct NodeRecordView {
    pub node_class: NodeClass,
    pub display_name: Seq<char>,
    pub type_definition: NodeIdView,
}

impl View for NodeRecord {
    type V = NodeRecordView;

    open spec fn view(&self) -> NodeRecordView {
        NodeRecordView {
            node_class: self.node_class,
            display_name: self.display_name@,
            type_definition: self.type_definition@,
        }
    }
}

/// One reference (edge) reported by a browse response: the target node and
/// the descriptive fields the response carries for it.
pub struct ReferenceDescription {
    pub target: NodeId,
    pub node_class: NodeClass,
    pub browse_name: String,
    pub type_definition: NodeId,
}

/// Mathematical image of a [`ReferenceDescription`].
pub ghost struct ReferenceDescriptionView {
    pub target: NodeIdView,
    pub node_class: NodeClass,
    pub browse_name: Seq<char>,
    pub type_definition: NodeIdView,
}

impl View for ReferenceDescription {
    type V = ReferenceDescriptionView;

    open spec fn view(&self) -> ReferenceDescriptionView {
        ReferenceDescriptionView {
            target: self.target@,
            node_class: self.node_class,
            browse_name: self.browse_name@,
            type_definition: self.type_definition@,
        }
    }
}

/// The node record that a reference description prescribes for its target.
pub open spec fn record_of(r: ReferenceDescriptionView) -> NodeRecordView {
    NodeRecordView {
        node_class: r.node_class,
        display_name: r.browse_name,
        type_definition: r.type_definition,
    }
}

impl ReferenceDescription {
    /// Derive the prospective node record for this reference's target.
    pub fn to_record(&self) -> (r: NodeRecord)
        ensures
            r@ == record_of(self@),
    {
        NodeRecord {
            node_class: self.node_class,
            display_name: self.browse_name.clone(),
            type_definition: self.type_definition.clone_id(),
        }
    }
}

} // verus!
