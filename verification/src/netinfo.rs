//! The static view of the network that an instance works with.

use vstd::prelude::*;

verus! {

/// The identifier of a node.
pub type NodeUid = u64;

/// The size of the network, the number of faulty nodes it tolerates and the
/// identifier of the local node. Every value satisfies `3 f + 1 <= N`.
#[derive(Clone, Copy, Debug)]
pub struct NetworkInfo {
    our_uid: NodeUid,
    num_nodes: usize,
    num_faulty: usize,
}

impl NetworkInfo {
    #[verifier::type_invariant]
    spec fn inv(self) -> bool {
        3 * self.num_faulty + 1 <= self.num_nodes
    }

    /// The local node's identifier.
    pub closed spec fn uid(self) -> NodeUid {
        self.our_uid
    }

    /// The number of nodes, `N`.
    pub closed spec fn nodes(self) -> nat {
        self.num_nodes as nat
    }

    /// The number of faulty nodes tolerated, `f`.
    pub closed spec fn faulty(self) -> nat {
        self.num_faulty as nat
    }

    /// Whether a network of `num_nodes` nodes can tolerate `num_faulty` faulty ones.
    pub open spec fn admissible(num_nodes: nat, num_faulty: nat) -> bool {
        3 * num_faulty + 1 <= num_nodes
    }

    /// The view of a network of `num_nodes` nodes, `num_faulty` of them
    /// faulty at most, from the node `our_uid`; nothing where
    /// `3 * num_faulty + 1 > num_nodes`.
    pub fn new(our_uid: NodeUid, num_nodes: usize, num_faulty: usize) -> (r: Option<NetworkInfo>)
        ensures
            r is Some <==> NetworkInfo::admissible(num_nodes as nat, num_faulty as nat),
            r matches Some(n) ==> n.uid() == our_uid && n.nodes() == num_nodes && n.faulty()
                == num_faulty,
    {
        if num_nodes >= 1 && num_faulty <= (num_nodes - 1) / 3 {
            Some(NetworkInfo { our_uid, num_nodes, num_faulty })
        } else {
            None
        }
    }

    /// The local node's identifier.
    pub fn our_uid(&self) -> (id: &NodeUid)
        ensures
            *id == self.uid(),
    {
        &self.our_uid
    }

    /// The number of nodes.
    pub fn num_nodes(&self) -> (n: usize)
        ensures
            n == self.nodes(),
            NetworkInfo::admissible(self.nodes(), self.faulty()),
    {
        proof {
            use_type_invariant(self);
        }
        self.num_nodes
    }

    /// The number of faulty nodes tolerated.
    pub fn num_faulty(&self) -> (f: usize)
        ensures
            f == self.faulty(),
            NetworkInfo::admissible(self.nodes(), self.faulty()),
            3 * f + 1 <= usize::MAX,
    {
        proof {
            use_type_invariant(self);
        }
        self.num_faulty
    }
}

} // verus!
