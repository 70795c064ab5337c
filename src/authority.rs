use vstd::prelude::*;

use crate::name_type::NameType;

verus! {

/// Why this node is handling a request. Name-scoped roles carry the name
/// they are scoped to.
#[derive(Clone, Copy, Debug)]
pub enum Authority {
    /// Manages the client whose requests arrive from outside the routing table.
    ClientManager(NameType),
    /// One of the nodes authoritative for a piece of network-addressable data.
    NaeManager(NameType),
    /// A member of the close group of the given name.
    OurCloseGroup(NameType),
    /// Manages a node of its routing table.
    NodeManager(NameType),
    /// The destination node itself.
    ManagedNode,
    /// A client-facing endpoint.
    Client,
    /// No role could be established.
    Unknown,
}

impl Authority {
    /// The name a role is scoped to, if it is name-scoped.
    pub open spec fn scope(self) -> Option<NameType> {
        match self {
            Authority::ClientManager(n) => Some(n),
            Authority::NaeManager(n) => Some(n),
            Authority::OurCloseGroup(n) => Some(n),
            Authority::NodeManager(n) => Some(n),
            _ => None,
        }
    }

    pub fn scoped_name(&self) -> (r: Option<NameType>)
        ensures
            r == self.scope(),
    {
        match self {
            Authority::ClientManager(n) => Some(*n),
            Authority::NaeManager(n) => Some(*n),
            Authority::OurCloseGroup(n) => Some(*n),
            Authority::NodeManager(n) => Some(*n),
            _ => None,
        }
    }
}

} // verus!
