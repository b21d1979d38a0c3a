//! Bookkeeping of replication peers: which storage nodes are known and where
//! they are. Connecting to a peer and sending it a file's bytes belong to the
//! transport; this module picks the destination.
use crate::keyed::{
    find_key, keys_unique, lemma_table_map_at, lemma_table_map_domain, lemma_table_map_push,
    lemma_table_map_replace, table_map,
};
use vstd::prelude::*;

verus! {

/// Errors of replication.
#[derive(Clone, Copy, Debug, PartialEq, Eq, Structural)]
pub enum ReplicationError {
    /// No peer is registered under that id.
    NodeNotFound,
}

/// The known peers, by node id.
pub struct ReplicationManager {
    remote_nodes: Vec<(String, String)>,
}

impl ReplicationManager {
    /// Node id to peer address.
    pub closed spec fn peers(&self) -> Map<Seq<char>, Seq<char>> {
        table_map(self.remote_nodes@)
    }

    pub closed spec fn wf(&self) -> bool {
        keys_unique(self.remote_nodes@)
    }

    /// No peer known.
    pub fn new() -> (r: ReplicationManager)
        ensures
            r.wf(),
            r.peers() == Map::<Seq<char>, Seq<char>>::empty(),
    {
        ReplicationManager { remote_nodes: Vec::new() }
    }

    /// Records peer `node_id` at `address`, once the transport has connected
    /// to it, over any earlier address of that id.
    pub fn add_remote_node(&mut self, node_id: &str, address: &str)
        requires
            old(self).wf(),
        ensures
            final(self).wf(),
            final(self).peers() == old(self).peers().insert(node_id@, address@),
    {
        let key = String::from_str(node_id);
        let addr = String::from_str(address);
        let ghost s = self.remote_nodes@;
        match find_key(&self.remote_nodes, &key) {
            Some(i) => {
                proof {
                    lemma_table_map_replace(s, i as int, (key, addr));
                }
                self.remote_nodes[i] = (key, addr);
            },
            None => {
                proof {
                    lemma_table_map_domain(s, key@);
                    lemma_table_map_push(s, (key, addr));
                }
                self.remote_nodes.push((key, addr));
            },
        }
    }

    /// The address to push a file to for replication on node `node_id`;
    /// `NodeNotFound` where no such peer is known. Sending is left to the
    /// transport, and its failure does not undo the local write.
    pub fn replicate_file_to_node(&self, node_id: &str) -> (r: Result<String, ReplicationError>)
        requires
            self.wf(),
        ensures
            r is Ok <==> self.peers().contains_key(node_id@),
            r matches Ok(a) ==> a@ == self.peers()[node_id@],
            r is Err ==> r == Err::<String, ReplicationError>(ReplicationError::NodeNotFound),
    {
        let key = String::from_str(node_id);
        match find_key(&self.remote_nodes, &key) {
            Some(i) => {
                proof {
                    lemma_table_map_at(self.remote_nodes@, i as int);
                }
                Ok(self.remote_nodes[i].1.clone())
            },
            None => {
                proof {
                    lemma_table_map_domain(self.remote_nodes@, node_id@);
                }
                Err(ReplicationError::NodeNotFound)
            },
        }
    }
}

} // verus!
