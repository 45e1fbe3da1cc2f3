//! Where the peers of a node are reached, and how long to wait for them.

use crate::text::{decimal, decimal_text, join2};
use std::collections::BTreeMap;
use vstd::prelude::*;

verus! {

broadcast use vstd::std_specs::btree::group_btree_axioms;

/// The address of each peer.  `A` is the transport's address type.
#[derive(Clone, Debug)]
pub struct PeerRegistry<A> {
    pub peers: BTreeMap<u64, A>,
}

impl<A> PeerRegistry<A> {
    /// No peers.
    pub fn new() -> (r: Self)
        ensures
            r.peers@ == Map::<u64, A>::empty(),
    {
        PeerRegistry { peers: BTreeMap::new() }
    }

    /// Writes down where a peer is reached.
    pub fn register(&mut self, node_id: u64, addr: A)
        ensures
            final(self).peers@ == old(self).peers@.insert(node_id, addr),
    {
        self.peers.insert(node_id, addr);
    }

    /// Forgets a peer.
    pub fn unregister(&mut self, node_id: u64)
        ensures
            final(self).peers@ == old(self).peers@.remove(node_id),
    {
        self.peers.remove(&node_id);
    }

    /// Where a peer is reached.
    pub fn get(&self, node_id: u64) -> (r: Option<&A>)
        ensures
            match r {
                Some(a) => self.peers@.contains_key(node_id) && *a == self.peers@[node_id],
                None => !self.peers@.contains_key(node_id),
            },
    {
        self.peers.get(&node_id)
    }

    /// Where a peer is reached, or what to say where it is not known.
    pub fn address_of(&self, node_id: u64) -> (r: Result<&A, String>)
        ensures
            match r {
                Ok(a) => self.peers@.contains_key(node_id) && *a == self.peers@[node_id],
                Err(e) => !self.peers@.contains_key(node_id) && e@
                    == "no address registered for node "@ + decimal(node_id as nat),
            },
    {
        match self.peers.get(&node_id) {
            Some(a) => Ok(a),
            None => Err(
                join2("no address registered for node ", decimal_text(node_id).as_str()),
            ),
        }
    }

    /// All peers, each once, in the order of their numbers.
    pub fn list(&self) -> (r: Vec<(u64, &A)>)
        ensures
            r@.len() == self.peers@.len(),
            forall|i: int|
                0 <= i < r@.len() ==> self.peers@.contains_key((#[trigger] r@[i]).0) && *r@[i].1
                    == self.peers@[r@[i].0],
            forall|i: int, j: int|
                0 <= i < j < r@.len() ==> (#[trigger] r@[i]).0 < (#[trigger] r@[j]).0,
    {
        let keys = crate::collections::sorted_indexes(&self.peers);
        let mut r: Vec<(u64, &A)> = Vec::new();
        let mut i: usize = 0;
        while i < keys.len()
            invariant
                i <= keys@.len(),
                i == r@.len(),
                forall|k: u64| #[trigger] self.peers@.contains_key(k) <==> keys@.contains(k),
                forall|j: int|
                    0 <= j < i ==> (#[trigger] r@[j]).0 == keys@[j] && self.peers@.contains_key(
                        keys@[j],
                    ) && *r@[j].1 == self.peers@[keys@[j]],
            decreases keys@.len() - i,
        {
            assert(keys@.contains(keys@[i as int]));
            match self.peers.get(&keys[i]) {
                Some(a) => {
                    r.push((keys[i], a));
                },
                None => {
                    assert(false);
                },
            }
            i = i + 1;
        }
        r
    }
}

impl<A> Default for PeerRegistry<A> {
    fn default() -> (r: Self)
        ensures
            r.peers@ == Map::<u64, A>::empty(),
    {
        Self::new()
    }
}

/// How long to wait for a peer, in milliseconds.
#[derive(Clone, Copy, Debug, PartialEq, Eq, Structural)]
pub struct TcpTransportConfig {
    pub connect_timeout_ms: u64,
    pub rpc_timeout_ms: u64,
}

impl Default for TcpTransportConfig {
    fn default() -> (r: Self)
        ensures
            r.connect_timeout_ms == 5000,
            r.rpc_timeout_ms == 5000,
    {
        TcpTransportConfig { connect_timeout_ms: 5000, rpc_timeout_ms: 5000 }
    }
}

} // verus!
