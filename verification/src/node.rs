//! Node-local membership state: the ClusterView slot and the heartbeat
//! watchers spawned from it.
//!
//! A node holds the most recently pushed membership in one slot; a membership
//! write replaces the whole slot at once and then starts one watcher per
//! record of the new table. Watchers are never stopped: a later replacement
//! leaves every earlier watcher running, so the watcher list only grows.

use vstd::prelude::*;

use crate::codec::{decode_records, parse_records};
use crate::numbers::u32_digits;
use crate::records::{seq_view, MpcNodeAddresses};
use crate::text::string_of_chars;

verus! {

/// Why a membership write was rejected.
#[derive(Debug, Clone, Copy, PartialEq, Eq, Structural)]
pub enum SetNodesError {
    /// The payload was not a well-formed membership list.
    BadRequest,
}

/// The address characters of each record, in order.
pub open spec fn addrs_of(rs: Seq<MpcNodeAddresses>) -> Seq<Seq<char>> {
    rs.map_values(|r: MpcNodeAddresses| r.address@)
}

/// The character content of each string, in order.
pub open spec fn strs_view(ss: Seq<String>) -> Seq<Seq<char>> {
    ss.map_values(|s: String| s@)
}

/// What one node observably is: its own index, the ClusterView it serves, and
/// the targets of every watcher it has ever started, in start order.
pub struct NodeState {
    pub node_nr: u32,
    pub nodes: Vec<MpcNodeAddresses>,
    pub watchers: Vec<String>,
}

impl View for NodeState {
    type V = (u32, Seq<(u32, Seq<char>)>, Seq<Seq<char>>);

    open spec fn view(&self) -> (u32, Seq<(u32, Seq<char>)>, Seq<Seq<char>>) {
        (self.node_nr, seq_view(self.nodes@), strs_view(self.watchers@))
    }
}

/// One membership write, as a whole: the ClusterView becomes exactly the new
/// table, and one watcher per new record is appended to those already running.
pub open spec fn spec_set_nodes(
    s: (u32, Seq<(u32, Seq<char>)>, Seq<Seq<char>>),
    payload: Seq<(u32, Seq<char>)>,
) -> (u32, Seq<(u32, Seq<char>)>, Seq<Seq<char>>) {
    (s.0, payload, s.2 + payload.map_values(|r: (u32, Seq<char>)| r.1))
}

impl NodeState {
    /// A node starts with an empty ClusterView and no watchers.
    pub fn new(node_nr: u32) -> (s: Self)
        ensures
            s@ == (node_nr, Seq::<(u32, Seq<char>)>::empty(), Seq::<Seq<char>>::empty()),
    {
        let s = NodeState { node_nr, nodes: Vec::new(), watchers: Vec::new() };
        proof {
            assert(seq_view(s.nodes@) =~= Seq::<(u32, Seq<char>)>::empty());
            assert(strs_view(s.watchers@) =~= Seq::<Seq<char>>::empty());
        }
        s
    }

    /// Replaces the ClusterView with the new table in one step and starts a
    /// watcher for every record in it, never stopping the old watchers.
    pub fn set_nodes(&mut self, payload: Vec<MpcNodeAddresses>)
        ensures
            final(self)@ == spec_set_nodes(old(self)@, seq_view(payload@)),
    {
        let ghost w0 = strs_view(old(self).watchers@);
        proof {
            assert(w0 + addrs_of(payload@.take(0)) =~~= w0);
        }
        let mut i: usize = 0;
        while i < payload.len()
            invariant
                i <= payload@.len(),
                self.node_nr == old(self).node_nr,
                self.nodes == old(self).nodes,
                strs_view(self.watchers@) == w0 + addrs_of(payload@.take(i as int)),
            decreases payload@.len() - i,
        {
            let ghost wpre = self.watchers@;
            self.watchers.push(payload[i].address.clone());
            proof {
                assert(self.watchers@ == wpre.push(payload@[i as int].address));
                assert(strs_view(wpre.push(payload@[i as int].address)) =~~= strs_view(wpre).push(
                    payload@[i as int].address@,
                ));
                assert(addrs_of(payload@.take(i as int + 1)) =~~= addrs_of(
                    payload@.take(i as int),
                ).push(payload@[i as int].address@));
                assert(strs_view(self.watchers@) =~~= w0 + addrs_of(payload@.take(i as int + 1)));
            }
            i = i + 1;
        }
        proof {
            assert(addrs_of(payload@.take(payload@.len() as int)) =~~= addrs_of(payload@));
        }
        self.nodes = payload;
        proof {
            assert(addrs_of(payload@) =~~= seq_view(payload@).map_values(
                |r: (u32, Seq<char>)| r.1,
            ));
        }
    }

    /// The membership write as it comes off the wire: decodes the payload,
    /// rejects a malformed one leaving the node untouched, and otherwise
    /// applies it as one whole replacement.
    pub fn handle_set_nodes(&mut self, body: &str) -> (r: Result<(), SetNodesError>)
        ensures
            match r {
                Ok(()) => parse_records(body@) matches Some(rs) && final(self)@ == spec_set_nodes(
                    old(self)@,
                    rs,
                ),
                Err(e) => e == SetNodesError::BadRequest && parse_records(body@) is None
                    && *final(self) == *old(self),
            },
    {
        match decode_records(body) {
            Some(recs) => {
                let ghost rs = seq_view(recs@);
                self.set_nodes(recs);
                Ok(())
            },
            None => Err(SetNodesError::BadRequest),
        }
    }

    /// The `/info` response body: this node's own index in decimal.
    pub fn info_body(&self) -> (r: String)
        ensures
            r@ == u32_digits(self.node_nr as nat),
    {
        let ds = crate::numbers::u32_digits_vec(self.node_nr);
        string_of_chars(&ds)
    }
}

/// Replacing the ClusterView is atomic: the table served after a write is the
/// entire new table, whatever was served before — never a mix of old and new
/// records.
pub proof fn lemma_set_nodes_atomic(
    s1: (u32, Seq<(u32, Seq<char>)>, Seq<Seq<char>>),
    s2: (u32, Seq<(u32, Seq<char>)>, Seq<Seq<char>>),
    payload: Seq<(u32, Seq<char>)>,
)
    ensures
        spec_set_nodes(s1, payload).1 == payload,
        spec_set_nodes(s1, payload).1 == spec_set_nodes(s2, payload).1,
{
}

/// Writing the same payload twice leaves the ClusterView observably identical
/// to writing it once: same records, same order. (The watcher list is not
/// part of the served view and does grow again.)
pub proof fn lemma_set_nodes_idempotent(
    s: (u32, Seq<(u32, Seq<char>)>, Seq<Seq<char>>),
    payload: Seq<(u32, Seq<char>)>,
)
    ensures
        spec_set_nodes(spec_set_nodes(s, payload), payload).1 == spec_set_nodes(s, payload).1,
        spec_set_nodes(spec_set_nodes(s, payload), payload).0 == spec_set_nodes(s, payload).0,
{
}

/// A membership replacement never stops a running watcher: every watcher
/// present before a write is still present, in place, after it.
pub proof fn lemma_watchers_persist(
    s: (u32, Seq<(u32, Seq<char>)>, Seq<Seq<char>>),
    payload: Seq<(u32, Seq<char>)>,
    i: int,
)
    requires
        0 <= i < s.2.len(),
    ensures
        spec_set_nodes(s, payload).2.len() >= s.2.len(),
        spec_set_nodes(s, payload).2[i] == s.2[i],
{
}

} // verus!
