//! The shared membership record: one cluster member's ordinal index and its
//! reachable base address.

use vstd::prelude::*;

verus! {

/// One cluster member. A full cluster membership is an ordered sequence of
/// these records, where each record's `node_nr` equals its position.
#[derive(Debug, Clone)]
pub struct MpcNodeAddresses {
    pub node_nr: u32,
    pub address: String,
}

impl View for MpcNodeAddresses {
    type V = (u32, Seq<char>);

    open spec fn view(&self) -> (u32, Seq<char>) {
        (self.node_nr, self.address@)
    }
}

/// The mathematical value of a membership list: index and address characters
/// of each record, in order.
pub open spec fn seq_view(s: Seq<MpcNodeAddresses>) -> Seq<(u32, Seq<char>)> {
    s.map_values(|r: MpcNodeAddresses| r@)
}

/// Builds the orchestrator's membership list from the configured node base
/// addresses: each address is paired with its position as its index.
pub fn make_services(addresses: &Vec<String>) -> (r: Vec<MpcNodeAddresses>)
    requires
        addresses@.len() <= u32::MAX,
    ensures
        r@.len() == addresses@.len(),
        forall|i: int| 0 <= i < r@.len() ==> #[trigger] r@[i]@ == (i as u32, addresses@[i]@),
{
    let mut r: Vec<MpcNodeAddresses> = Vec::new();
    let mut i: usize = 0;
    while i < addresses.len()
        invariant
            i <= addresses@.len() <= u32::MAX,
            r@.len() == i,
            forall|j: int| 0 <= j < i ==> #[trigger] r@[j]@ == (j as u32, addresses@[j]@),
        decreases addresses@.len() - i,
    {
        let rec = MpcNodeAddresses { node_nr: i as u32, address: addresses[i].clone() };
        r.push(rec);
        i = i + 1;
    }
    r
}

} // verus!
