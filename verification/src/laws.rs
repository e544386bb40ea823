//! The engine's cross-operation guarantees, stated over the store model
//! that every operation's contract is written against.

use vstd::prelude::*;

use crate::channel::enc_channel;
use crate::channel::Channel;
use crate::channel::SignedChannel;
use crate::contract::enc_contract;
use crate::contract::Contract;
use crate::contract::OfferedContract;
use crate::contract::SignedContract;
use crate::store::updated_channel_map;
use crate::store::updated_contract_map;

verus! {

/// Atomic rekey: creating an offered contract under its temporary id and
/// then updating it to a signed contract carrying a distinct permanent id
/// leaves exactly one retrievable record — the temporary id no longer
/// resolves and the permanent id holds the signed record.  The engine
/// performs the removal and the insertion in one transaction, so after an
/// aborted update the tree is unchanged (the update's own contract states
/// this for its failure case).
pub proof fn lemma_atomic_rekey(m0: Map<Seq<u8>, Seq<u8>>, o: OfferedContract, sc: SignedContract)
    requires
        sc.accepted_contract.offered_contract.id@ == o.id@,
        sc.accepted_contract.contract_id@ != o.id@,
    ensures
        ({
            let created = m0.insert(o.id@, enc_contract(Contract::Offered(o)));
            let updated = updated_contract_map(created, Contract::Signed(sc));
            &&& !updated.contains_key(o.id@)
            &&& updated.contains_key(sc.accepted_contract.contract_id@)
            &&& updated[sc.accepted_contract.contract_id@] == enc_contract(Contract::Signed(sc))
        }),
{
}

/// Paired atomicity: one upsert of a signed channel together with its
/// contract makes the channel record and the contract record visible
/// under their ids in the same step; the engine commits both in one
/// transaction, and after a failed upsert neither tree changes (the
/// upsert's own contract states this for its failure case).
pub proof fn lemma_paired_visibility(
    mchan: Map<Seq<u8>, Seq<u8>>,
    mcont: Map<Seq<u8>, Seq<u8>>,
    ch: SignedChannel,
    c: Contract,
)
    ensures
        updated_channel_map(mchan, Channel::Signed(ch)).contains_key(ch.channel_id@),
        updated_channel_map(mchan, Channel::Signed(ch))[ch.channel_id@] == enc_channel(
            Channel::Signed(ch),
        ),
        updated_contract_map(mcont, c).contains_key(c.spec_id()),
        updated_contract_map(mcont, c)[c.spec_id()] == enc_contract(c),
{
}

/// Delete is terminal: after a record is removed, its id no longer
/// resolves, and a later lookup of that id returns nothing.
pub proof fn lemma_delete_terminal(m: Map<Seq<u8>, Seq<u8>>, id: Seq<u8>)
    ensures
        !m.remove(id).contains_key(id),
{
}

/// Chain monitor overwrite: persisting a snapshot and then a second one
/// leaves the store exactly as if only the second had ever been
/// persisted; no history is retained.
pub proof fn lemma_monitor_overwrite(
    m: Map<Seq<u8>, Seq<u8>>,
    k: Seq<u8>,
    first: Seq<u8>,
    second: Seq<u8>,
)
    ensures
        m.insert(k, first).insert(k, second) == m.insert(k, second),
{
    assert(m.insert(k, first).insert(k, second) =~= m.insert(k, second));
}

} // verus!
