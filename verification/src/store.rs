//! The sled-backed persistent store and the two lifecycle engines.
//!
//! Each engine owns one tree of the database, named by a single byte; the
//! chain monitor snapshot lives in a third.  Every multi-key update — the
//! temporary-to-permanent rekeying of a contract or channel, and the paired
//! write of a channel with its contract — runs inside one sled transaction,
//! so that after a crash either the whole transition is visible or none of
//! it is.
//!
//! The model of the store is the map `tree_model` from tree name and key to
//! record bytes; every trusted wrapper around sled states its effect on
//! that map, and every engine operation is verified against it.

use sled::transaction::UnabortableTransactionError;
use sled::Transactional;
use vstd::prelude::*;

use crate::chain_monitor::ChainMonitor;
use crate::channel::deserialize_channel;
use crate::channel::enc_channel;
use crate::channel::read_offered_channel;
use crate::channel::read_signed_channel;
use crate::channel::serialize_channel;
use crate::channel::substate_prefix;
use crate::channel::substate_tag;
use crate::channel::Channel;
use crate::channel::ChannelId;
use crate::channel::OfferedChannel;
use crate::channel::SignedChannel;
use crate::channel::SignedChannelStateType;
use crate::codec::write_id;
use crate::contract::deserialize_contract;
use crate::contract::enc_contract;
use crate::contract::read_offered;
use crate::contract::read_signed;
use crate::contract::serialize_contract;
use crate::contract::write_offered;
use crate::contract::Contract;
use crate::contract::ContractId;
use crate::contract::OfferedContract;
use crate::contract::SignedContract;
use crate::error::Error;

verus! {

/// The tree holding one record per contract.
pub const CONTRACT_TREE: u8 = 1;

/// The tree holding one record per channel.
pub const CHANNEL_TREE: u8 = 2;

/// The tree holding the single chain monitor snapshot.
pub const CHAIN_MONITOR_TREE: u8 = 3;

/// The single key under which the chain monitor snapshot is stored.
pub const CHAIN_MONITOR_KEY: u8 = 4;

#[verifier::external_type_specification]
#[verifier::external_body]
pub struct ExDb(sled::Db);

/// Implementation of the storage interface using the sled DB backend.
pub struct SledStorageProvider {
    db: sled::Db,
}

/// What the tree named `tree_id` of the store holds: a map from key bytes
/// to record bytes.
pub uninterp spec fn tree_model(s: SledStorageProvider, tree_id: u8) -> Map<Seq<u8>, Seq<u8>>;

/// The contract engine's records, keyed by contract id bytes.
pub open spec fn contract_records(s: SledStorageProvider) -> Map<Seq<u8>, Seq<u8>> {
    tree_model(s, CONTRACT_TREE)
}

/// The channel engine's records, keyed by channel id bytes.
pub open spec fn channel_records(s: SledStorageProvider) -> Map<Seq<u8>, Seq<u8>> {
    tree_model(s, CHANNEL_TREE)
}

/// The chain monitor tree, holding at most the single snapshot record.
pub open spec fn monitor_records(s: SledStorageProvider) -> Map<Seq<u8>, Seq<u8>> {
    tree_model(s, CHAIN_MONITOR_TREE)
}

impl SledStorageProvider {
    /// Creates a new instance of a SledStorageProvider.
    ///
    /// Relies on sled::open: opens (or creates) the database at `path`.
    /// Nothing is assumed about what the trees already hold.
    #[verifier::external_body]
    pub fn new(path: &str) -> Result<SledStorageProvider, Error> {
        let db = sled::open(path).map_err(|e| Error::StorageError(format!("{}", e)))?;
        Ok(SledStorageProvider { db })
    }

    /// Creates an instance backed by a scratch directory that the system
    /// removes when the store is dropped; intended for tests and tooling.
    ///
    /// Relies on sled::Config::temporary and sled::Config::open.
    #[verifier::external_body]
    pub fn new_temporary() -> Result<SledStorageProvider, Error> {
        let db = sled::Config::new().temporary(true).open().map_err(|e| {
            Error::StorageError(format!("{}", e))
        })?;
        Ok(SledStorageProvider { db })
    }

    /// Relies on sled::Db::open_tree and sled::Tree::get: a point lookup in
    /// the tree named `tree_id`.
    #[verifier::external_body]
    fn tree_get(&self, tree_id: u8, key: &Vec<u8>) -> (r: Result<Option<Vec<u8>>, Error>)
        ensures
            r matches Ok(Some(v)) ==> tree_model(*self, tree_id).contains_key(key@) && tree_model(*self,
                tree_id,
            )[key@] == v@,
            r matches Ok(None) ==> !tree_model(*self, tree_id).contains_key(key@),
            r is Err ==> r matches Err(Error::StorageError(_)),
    {
        let tree = self.db.open_tree([tree_id]).map_err(|e| {
            Error::StorageError(format!("Error opening tree: {}", e))
        })?;
        match tree.get(key).map_err(|e| Error::StorageError(format!("{}", e)))? {
            Some(v) => Ok(Some(v.to_vec())),
            None => Ok(None),
        }
    }

    /// Relies on sled::Db::open_tree and sled::Tree::insert: sets `key` to
    /// `value` in the tree named `tree_id`, leaving the other trees as they
    /// were.
    #[verifier::external_body]
    fn tree_insert(&mut self, tree_id: u8, key: &Vec<u8>, value: &Vec<u8>) -> (r: Result<
        (),
        Error,
    >)
        ensures
            r is Ok ==> tree_model(*final(self), tree_id) == tree_model(*old(self), tree_id).insert(
                key@,
                value@,
            ),
            r is Ok ==> forall|t: u8|
                t != tree_id ==> tree_model(*final(self), t) == tree_model(*old(self), t),
            r is Err ==> r matches Err(Error::StorageError(_)),
    {
        let tree = self.db.open_tree([tree_id]).map_err(|e| {
            Error::StorageError(format!("Error opening tree: {}", e))
        })?;
        tree.insert(key.as_slice(), value.as_slice()).map_err(|e| {
            Error::StorageError(format!("{}", e))
        })?;
        Ok(())
    }

    /// Relies on sled::Db::open_tree and sled::Tree::remove: removes `key`
    /// from the tree named `tree_id`, leaving the other trees as they were.
    #[verifier::external_body]
    fn tree_remove(&mut self, tree_id: u8, key: &Vec<u8>) -> (r: Result<(), Error>)
        ensures
            r is Ok ==> tree_model(*final(self), tree_id) == tree_model(*old(self), tree_id).remove(
                key@,
            ),
            r is Ok ==> forall|t: u8|
                t != tree_id ==> tree_model(*final(self), t) == tree_model(*old(self), t),
            r is Err ==> r matches Err(Error::StorageError(_)),
    {
        let tree = self.db.open_tree([tree_id]).map_err(|e| {
            Error::StorageError(format!("Error opening tree: {}", e))
        })?;
        tree.remove(key.as_slice()).map_err(|e| Error::StorageError(format!("{}", e)))?;
        Ok(())
    }

    /// Relies on sled::Tree::transaction: removes `del_key` and then sets
    /// `key` to `value` in the tree named `tree_id`, atomically.  On an
    /// error the transaction is not applied and every tree is left as it
    /// was.
    #[verifier::external_body]
    fn tree_txn_remove_insert(
        &mut self,
        tree_id: u8,
        del_key: &Vec<u8>,
        key: &Vec<u8>,
        value: &Vec<u8>,
    ) -> (r: Result<(), Error>)
        ensures
            r is Ok ==> tree_model(*final(self), tree_id) == tree_model(*old(self), tree_id).remove(
                del_key@,
            ).insert(key@, value@),
            r is Ok ==> forall|t: u8|
                t != tree_id ==> tree_model(*final(self), t) == tree_model(*old(self), t),
            r is Err ==> forall|t: u8| tree_model(*final(self), t) == tree_model(*old(self), t),
            r is Err ==> r matches Err(Error::StorageError(_)),
    {
        let tree = self.db.open_tree([tree_id]).map_err(|e| Error::StorageError(e.to_string()))?;
        let res: sled::transaction::TransactionResult<(), UnabortableTransactionError> =
            tree.transaction(|db| {
                db.remove(del_key.as_slice())?;
                db.insert(key.as_slice(), value.as_slice())?;
                Ok(())
            });
        res.map_err(|e| Error::StorageError(e.to_string())).map(|_| ())
    }

    /// Relies on sled::Transactional for a pair of trees: removes
    /// `chan_del` and sets `chan_key` in the channel tree, removes
    /// `cont_del` and sets `cont_key` in the contract tree, all in one
    /// atomic transaction.  On an error nothing is applied and every tree
    /// is left as it was.
    #[verifier::external_body]
    fn txn_pair(
        &mut self,
        chan_del: &Vec<u8>,
        chan_key: &Vec<u8>,
        chan_val: &Vec<u8>,
        cont_del: &Vec<u8>,
        cont_key: &Vec<u8>,
        cont_val: &Vec<u8>,
    ) -> (r: Result<(), Error>)
        ensures
            r is Ok ==> tree_model(*final(self), CHANNEL_TREE) == tree_model(*old(self),
                CHANNEL_TREE,
            ).remove(chan_del@).insert(chan_key@, chan_val@),
            r is Ok ==> tree_model(*final(self), CONTRACT_TREE) == tree_model(*old(self),
                CONTRACT_TREE,
            ).remove(cont_del@).insert(cont_key@, cont_val@),
            r is Ok ==> forall|t: u8|
                t != CHANNEL_TREE && t != CONTRACT_TREE ==> tree_model(*final(self), t) == tree_model(*old(self),
                    t,
                ),
            r is Err ==> forall|t: u8| tree_model(*final(self), t) == tree_model(*old(self), t),
            r is Err ==> r matches Err(Error::StorageError(_)),
    {
        let ct = self.db.open_tree([CHANNEL_TREE]).map_err(|e| Error::StorageError(e.to_string()))?;
        let kt = self.db.open_tree([CONTRACT_TREE]).map_err(|e| Error::StorageError(e.to_string()))?;
        let res: sled::transaction::TransactionResult<(), UnabortableTransactionError> =
            (&ct, &kt).transaction(|(c, k)| {
                c.remove(chan_del.as_slice())?;
                c.insert(chan_key.as_slice(), chan_val.as_slice())?;
                k.remove(cont_del.as_slice())?;
                k.insert(cont_key.as_slice(), cont_val.as_slice())?;
                Ok(())
            });
        res.map_err(|e| Error::StorageError(e.to_string())).map(|_| ())
    }

    /// Relies on sled::Db::open_tree and sled::Tree::iter: all key/value
    /// pairs of the tree named `tree_id`, with each key listed once.
    #[verifier::external_body]
    fn tree_entries(&self, tree_id: u8) -> (r: Result<Vec<(Vec<u8>, Vec<u8>)>, Error>)
        ensures
            r matches Ok(es) ==> forall|i: int|
                0 <= i < es@.len() ==> tree_model(*self, tree_id).contains_key(#[trigger] es@[i].0@)
                    && tree_model(*self, tree_id)[es@[i].0@] == es@[i].1@,
            r matches Ok(es) ==> forall|k: Seq<u8>|
                tree_model(*self, tree_id).contains_key(k) ==> exists|i: int|
                    0 <= i < es@.len() && #[trigger] es@[i].0@ == k,
            r matches Ok(es) ==> forall|i: int, j: int|
                0 <= i < j < es@.len() ==> es@[i].0@ != es@[j].0@,
            r is Err ==> r matches Err(Error::StorageError(_)),
    {
        let tree = self.db.open_tree([tree_id]).map_err(|e| {
            Error::StorageError(format!("Error opening tree: {}", e))
        })?;
        tree.iter().map(|kv| {
            kv.map(|(k, v)| (k.to_vec(), v.to_vec())).map_err(|e| {
                Error::StorageError(format!("{}", e))
            })
        }).collect()
    }
}

/// Copies a fixed-size identifier into the key form the store uses.
fn id_to_vec(id: &[u8; 32]) -> (r: Vec<u8>)
    ensures
        r@ == id@,
{
    let mut r: Vec<u8> = Vec::new();
    write_id(&mut r, id);
    assert(r@ =~= id@);
    r
}

/// Whether updating to this contract phase atomically retires the record
/// under the temporary id: the accepted and signed-family phases carry a
/// permanent id.
pub open spec fn contract_rekeys(c: Contract) -> bool {
    c is Accepted || c is Signed || c is Confirmed || c is Refunded
}

/// The contract tree after an update: for a rekeying phase the record
/// under the temporary id is removed and the record under the permanent
/// id written, in one atomic step; any other phase is written under its
/// current id.
pub open spec fn updated_contract_map(m: Map<Seq<u8>, Seq<u8>>, c: Contract) -> Map<
    Seq<u8>,
    Seq<u8>,
> {
    if contract_rekeys(c) {
        m.remove(c.spec_temporary_id()).insert(c.spec_id(), enc_contract(c))
    } else {
        m.insert(c.spec_id(), enc_contract(c))
    }
}

/// Whether upserting this channel phase atomically retires the record
/// under the temporary id.
pub open spec fn channel_rekeys(c: Channel) -> bool {
    c is Accepted || c is Signed
}

/// The channel tree after an upsert, with the same rekeying rule as for
/// contracts.
pub open spec fn updated_channel_map(m: Map<Seq<u8>, Seq<u8>>, c: Channel) -> Map<
    Seq<u8>,
    Seq<u8>,
> {
    if channel_rekeys(c) {
        m.remove(c.spec_temporary_id()).insert(c.spec_id(), enc_channel(c))
    } else {
        m.insert(c.spec_id(), enc_channel(c))
    }
}

impl SledStorageProvider {
    /// Inserts a new offered contract keyed by its temporary id.  Fails
    /// with `InvalidState` if a record already exists for that id; a
    /// duplicate id never succeeds.
    pub fn create_contract(&mut self, contract: &OfferedContract) -> (r: Result<(), Error>)
        ensures
            r is Ok ==> !contract_records(*old(self)).contains_key(contract.id@),
            r is Ok ==> contract_records(*final(self)) == contract_records(*old(self)).insert(
                contract.id@,
                enc_contract(Contract::Offered(*contract)),
            ),
            r is Ok ==> channel_records(*final(self)) == channel_records(*old(self))
                && monitor_records(*final(self)) == monitor_records(*old(self)),
            contract_records(*old(self)).contains_key(contract.id@) ==> !(r is Ok),
            r matches Err(Error::InvalidState(_)) ==> contract_records(*old(self)).contains_key(
                contract.id@,
            ),
            r is Err ==> r matches Err(Error::InvalidState(_)) || r matches Err(
                Error::StorageError(_),
            ),
    {
        let key = id_to_vec(&contract.id);
        match self.tree_get(CONTRACT_TREE, &key) {
            Ok(Some(_)) => {
                return Err(Error::InvalidState("contract already exists".to_owned()))
            },
            Ok(None) => {},
            Err(e) => { return Err(e) },
        }
        let mut val: Vec<u8> = Vec::new();
        val.push(1);
        write_offered(&mut val, contract);
        proof {
            assert(val@ =~= enc_contract(Contract::Offered(*contract)));
        }
        self.tree_insert(CONTRACT_TREE, &key, &val)
    }

    /// Re-serializes the contract and commits it in one atomic
    /// transaction: a rekeying phase first removes the record under the
    /// temporary id, then the record under the entity's current id is
    /// written; after a failure every tree is as it was.
    pub fn update_contract(&mut self, contract: &Contract) -> (r: Result<(), Error>)
        ensures
            r is Ok ==> contract_records(*final(self)) == updated_contract_map(
                contract_records(*old(self)),
                *contract,
            ),
            r is Ok ==> channel_records(*final(self)) == channel_records(*old(self))
                && monitor_records(*final(self)) == monitor_records(*old(self)),
            r is Err ==> contract_records(*final(self)) == contract_records(*old(self))
                && channel_records(*final(self)) == channel_records(*old(self))
                && monitor_records(*final(self)) == monitor_records(*old(self)),
            r is Err ==> r matches Err(Error::StorageError(_)),
    {
        let serialized = serialize_contract(contract);
        let id = contract.get_id();
        let key = id_to_vec(&id);
        let rekey = match contract {
            Contract::Accepted(_) => true,
            Contract::Signed(_) => true,
            Contract::Confirmed(_) => true,
            Contract::Refunded(_) => true,
            _ => false,
        };
        let del = if rekey {
            id_to_vec(&contract.get_temporary_id())
        } else {
            id_to_vec(&id)
        };
        let r = self.tree_txn_remove_insert(CONTRACT_TREE, &del, &key, &serialized);
        proof {
            if r is Ok && !contract_rekeys(*contract) {
                assert(contract_records(*self) =~= updated_contract_map(
                    contract_records(*old(self)),
                    *contract,
                ));
            }
        }
        r
    }

    /// Removes the record under the given id unconditionally; used for
    /// explicit pruning, not as part of a phase transition.
    pub fn delete_contract(&mut self, contract_id: &ContractId) -> (r: Result<(), Error>)
        ensures
            r is Ok ==> contract_records(*final(self)) == contract_records(*old(self)).remove(
                contract_id@,
            ),
            r is Ok ==> channel_records(*final(self)) == channel_records(*old(self))
                && monitor_records(*final(self)) == monitor_records(*old(self)),
            r is Err ==> r matches Err(Error::StorageError(_)),
    {
        let key = id_to_vec(contract_id);
        self.tree_remove(CONTRACT_TREE, &key)
    }

    /// Looks up the contract stored under the given id and decodes it; an
    /// absent id is a valid `None`, never an error.
    pub fn get_contract(&self, contract_id: &ContractId) -> (r: Result<Option<Contract>, Error>)
        ensures
            r matches Ok(Some(c)) ==> contract_records(*self).contains_key(contract_id@)
                && contract_records(*self)[contract_id@] == enc_contract(c),
            r matches Ok(None) ==> !contract_records(*self).contains_key(contract_id@),
            r is Err ==> r matches Err(Error::StorageError(_)),
    {
        let key = id_to_vec(contract_id);
        match self.tree_get(CONTRACT_TREE, &key) {
            Ok(Some(v)) => match deserialize_contract(&v) {
                Ok(c) => Ok(Some(c)),
                Err(e) => Err(e),
            },
            Ok(None) => Ok(None),
            Err(e) => Err(e),
        }
    }

    /// Commits the channel record and, when a paired contract update is
    /// supplied, the contract record, in the same atomic transaction;
    /// the rekeying rule applies to each.  Both changes become visible
    /// together, or, after a failure, neither.
    pub fn upsert_channel(&mut self, channel: Channel, contract: Option<Contract>) -> (r: Result<
        (),
        Error,
    >)
        ensures
            r is Ok ==> channel_records(*final(self)) == updated_channel_map(
                channel_records(*old(self)),
                channel,
            ),
            r is Ok ==> contract_records(*final(self)) == (match contract {
                Option::Some(c) => updated_contract_map(contract_records(*old(self)), c),
                Option::None => contract_records(*old(self)),
            }),
            r is Ok ==> monitor_records(*final(self)) == monitor_records(*old(self)),
            r is Err ==> contract_records(*final(self)) == contract_records(*old(self))
                && channel_records(*final(self)) == channel_records(*old(self))
                && monitor_records(*final(self)) == monitor_records(*old(self)),
            r is Err ==> r matches Err(Error::StorageError(_)),
    {
        let serialized = serialize_channel(&channel);
        let chan_id = channel.get_id();
        let chan_key = id_to_vec(&chan_id);
        let chan_rekey = match &channel {
            Channel::Accepted(_) => true,
            Channel::Signed(_) => true,
            _ => false,
        };
        let chan_del = if chan_rekey {
            id_to_vec(&channel.get_temporary_id())
        } else {
            id_to_vec(&chan_id)
        };
        match &contract {
            Some(c) => {
                let cont_val = serialize_contract(c);
                let cont_id = c.get_id();
                let cont_key = id_to_vec(&cont_id);
                let cont_rekey = match c {
                    Contract::Accepted(_) => true,
                    Contract::Signed(_) => true,
                    Contract::Confirmed(_) => true,
                    Contract::Refunded(_) => true,
                    _ => false,
                };
                let cont_del = if cont_rekey {
                    id_to_vec(&c.get_temporary_id())
                } else {
                    id_to_vec(&cont_id)
                };
                let r = self.txn_pair(
                    &chan_del,
                    &chan_key,
                    &serialized,
                    &cont_del,
                    &cont_key,
                    &cont_val,
                );
                proof {
                    if r is Ok {
                        if !channel_rekeys(channel) {
                            assert(channel_records(*self) =~= updated_channel_map(
                                channel_records(*old(self)),
                                channel,
                            ));
                        }
                        if !contract_rekeys(*c) {
                            assert(contract_records(*self) =~= updated_contract_map(
                                contract_records(*old(self)),
                                *c,
                            ));
                        }
                    }
                }
                r
            },
            None => {
                let r = self.tree_txn_remove_insert(
                    CHANNEL_TREE,
                    &chan_del,
                    &chan_key,
                    &serialized,
                );
                proof {
                    if r is Ok && !channel_rekeys(channel) {
                        assert(channel_records(*self) =~= updated_channel_map(
                            channel_records(*old(self)),
                            channel,
                        ));
                    }
                }
                r
            },
        }
    }

    /// Removes the record under the given channel id unconditionally.
    pub fn delete_channel(&mut self, channel_id: &ChannelId) -> (r: Result<(), Error>)
        ensures
            r is Ok ==> channel_records(*final(self)) == channel_records(*old(self)).remove(
                channel_id@,
            ),
            r is Ok ==> contract_records(*final(self)) == contract_records(*old(self))
                && monitor_records(*final(self)) == monitor_records(*old(self)),
            r is Err ==> r matches Err(Error::StorageError(_)),
    {
        let key = id_to_vec(channel_id);
        self.tree_remove(CHANNEL_TREE, &key)
    }

    /// Looks up the channel stored under the given id and decodes it; an
    /// absent id is a valid `None`, never an error.
    pub fn get_channel(&self, channel_id: &ChannelId) -> (r: Result<Option<Channel>, Error>)
        ensures
            r matches Ok(Some(c)) ==> channel_records(*self).contains_key(channel_id@)
                && channel_records(*self)[channel_id@] == enc_channel(c),
            r matches Ok(None) ==> !channel_records(*self).contains_key(channel_id@),
            r is Err ==> r matches Err(Error::StorageError(_)),
    {
        let key = id_to_vec(channel_id);
        match self.tree_get(CHANNEL_TREE, &key) {
            Ok(Some(v)) => match deserialize_channel(&v) {
                Ok(c) => Ok(Some(c)),
                Err(e) => Err(e),
            },
            Ok(None) => Ok(None),
            Err(e) => Err(e),
        }
    }

    /// Overwrites the single chain monitor snapshot with the given one;
    /// no history is kept.
    pub fn persist_chain_monitor(&mut self, monitor: &ChainMonitor) -> (r: Result<(), Error>)
        ensures
            r is Ok ==> monitor_records(*final(self)) == monitor_records(*old(self)).insert(
                seq![CHAIN_MONITOR_KEY],
                monitor.data@,
            ),
            r is Ok ==> contract_records(*final(self)) == contract_records(*old(self))
                && channel_records(*final(self)) == channel_records(*old(self)),
            r is Err ==> r matches Err(Error::StorageError(_)),
    {
        let mut key: Vec<u8> = Vec::new();
        key.push(CHAIN_MONITOR_KEY);
        proof {
            assert(key@ =~= seq![CHAIN_MONITOR_KEY]);
        }
        self.tree_insert(CHAIN_MONITOR_TREE, &key, &monitor.data)
    }

    /// Returns the last persisted chain monitor snapshot, if any.
    pub fn get_chain_monitor(&self) -> (r: Result<Option<ChainMonitor>, Error>)
        ensures
            r matches Ok(Some(m)) ==> monitor_records(*self).contains_key(
                seq![CHAIN_MONITOR_KEY],
            ) && monitor_records(*self)[seq![CHAIN_MONITOR_KEY]] == m.data@,
            r matches Ok(None) ==> !monitor_records(*self).contains_key(seq![CHAIN_MONITOR_KEY]),
            r is Err ==> r matches Err(Error::StorageError(_)),
    {
        let mut key: Vec<u8> = Vec::new();
        key.push(CHAIN_MONITOR_KEY);
        proof {
            assert(key@ =~= seq![CHAIN_MONITOR_KEY]);
        }
        match self.tree_get(CHAIN_MONITOR_TREE, &key) {
            Ok(Some(v)) => Ok(Some(ChainMonitor { data: v })),
            Ok(None) => Ok(None),
            Err(e) => Err(e),
        }
    }
}

/// A record whose leading byte is the given tag.
pub open spec fn has_tag(v: Seq<u8>, tag: u8) -> bool {
    v.len() >= 1 && v[0] == tag
}

/// A full scan of the contract tree: `keys` enumerates every key exactly
/// once, and `out` holds the decoded record of each.
#[verifier::opaque]
pub open spec fn contracts_listing(
    m: Map<Seq<u8>, Seq<u8>>,
    keys: Seq<Seq<u8>>,
    out: Seq<Contract>,
) -> bool {
    &&& keys.no_duplicates()
    &&& out.len() == keys.len()
    &&& forall|k: Seq<u8>| m.contains_key(k) <==> #[trigger] keys.contains(k)
    &&& forall|i: int|
        0 <= i < keys.len() ==> m.contains_key(#[trigger] keys[i]) && m[keys[i]] == enc_contract(
            out[i],
        )
}

/// A filtered scan for offered contracts: `keys` enumerates exactly the
/// keys whose record carries the offered tag, and `out` holds the decoded
/// record of each.
#[verifier::opaque]
pub open spec fn offers_listing(
    m: Map<Seq<u8>, Seq<u8>>,
    keys: Seq<Seq<u8>>,
    out: Seq<OfferedContract>,
) -> bool {
    &&& keys.no_duplicates()
    &&& out.len() == keys.len()
    &&& forall|k: Seq<u8>| (m.contains_key(k) && has_tag(m[k], 1)) <==> #[trigger] keys.contains(k)
    &&& forall|i: int|
        0 <= i < keys.len() ==> m[#[trigger] keys[i]] == enc_contract(Contract::Offered(out[i]))
}

impl SledStorageProvider {
    /// Returns every contract in the store, decoding each record or
    /// failing on the first malformed one.
    pub fn get_contracts(&self) -> (r: Result<Vec<Contract>, Error>)
        ensures
            r is Ok ==> exists|keys: Seq<Seq<u8>>|
                contracts_listing(contract_records(*self), keys, (r->Ok_0)@),
            r is Err ==> r matches Err(Error::StorageError(_)),
    {
        let entries = match self.tree_entries(CONTRACT_TREE) {
            Ok(es) => es,
            Err(e) => { return Err(e) },
        };
        let ghost m = contract_records(*self);
        let ghost es = entries@;
        let mut out: Vec<Contract> = Vec::new();
        let ghost mut keys: Seq<Seq<u8>> = Seq::empty();
        let mut i: usize = 0;
        while i < entries.len()
            invariant
                i <= es.len(),
                es == entries@,
                m == contract_records(*self),
                forall|j: int|
                    0 <= j < es.len() ==> m.contains_key(#[trigger] es[j].0@) && m[es[j].0@]
                        == es[j].1@,
                forall|k: Seq<u8>|
                    m.contains_key(k) ==> exists|j: int| 0 <= j < es.len() && #[trigger] es[j].0@
                        == k,
                forall|j1: int, j2: int| 0 <= j1 < j2 < es.len() ==> es[j1].0@ != es[j2].0@,
                keys.len() == i,
                out@.len() == i,
                forall|j: int| 0 <= j < i ==> #[trigger] keys[j] == es[j].0@,
                forall|j: int|
                    0 <= j < i ==> m.contains_key(#[trigger] keys[j]) && m[keys[j]]
                        == enc_contract(out@[j]),
            decreases es.len() - i,
        {
            let c = match deserialize_contract(&entries[i].1) {
                Ok(c) => c,
                Err(e) => { return Err(e) },
            };
            out.push(c);
            proof {
                keys = keys.push(es[i as int].0@);
            }
            i = i + 1;
        }
        proof {
            assert(keys.no_duplicates()) by {
                assert forall|j1: int, j2: int|
                    0 <= j1 < keys.len() && 0 <= j2 < keys.len() && j1 != j2 implies keys[j1]
                    != keys[j2] by {}
            }
            assert forall|k: Seq<u8>| m.contains_key(k) implies #[trigger] keys.contains(k) by {
                let j = choose|j: int| 0 <= j < es.len() && #[trigger] es[j].0@ == k;
                assert(keys[j] == k);
            }
            assert(contracts_listing(contract_records(*self), keys, out@)) by {
                reveal(contracts_listing);
            }
        }
        let r: Result<Vec<Contract>, Error> = Ok(out);
        proof {
            assert(contracts_listing(contract_records(*self), keys, (r->Ok_0)@));
            assert(exists|ks: Seq<Seq<u8>>|
                contracts_listing(contract_records(*self), ks, (r->Ok_0)@));
        }
        r
    }

    /// Returns exactly the contracts currently in the offered phase,
    /// skipping every record whose tag byte names another phase without
    /// decoding its payload.
    pub fn get_contract_offers(&self) -> (r: Result<Vec<OfferedContract>, Error>)
        ensures
            r is Ok ==> exists|keys: Seq<Seq<u8>>|
                offers_listing(contract_records(*self), keys, (r->Ok_0)@),
            r is Err ==> r matches Err(Error::StorageError(_)),
    {
        let entries = match self.tree_entries(CONTRACT_TREE) {
            Ok(es) => es,
            Err(e) => { return Err(e) },
        };
        let ghost m = contract_records(*self);
        let ghost es = entries@;
        let mut out: Vec<OfferedContract> = Vec::new();
        let ghost mut keys: Seq<Seq<u8>> = Seq::empty();
        let ghost mut idxs: Seq<int> = Seq::empty();
        let mut i: usize = 0;
        while i < entries.len()
            invariant
                i <= es.len(),
                es == entries@,
                m == contract_records(*self),
                forall|j: int|
                    0 <= j < es.len() ==> m.contains_key(#[trigger] es[j].0@) && m[es[j].0@]
                        == es[j].1@,
                forall|k: Seq<u8>|
                    m.contains_key(k) ==> exists|j: int| 0 <= j < es.len() && #[trigger] es[j].0@
                        == k,
                forall|j1: int, j2: int| 0 <= j1 < j2 < es.len() ==> es[j1].0@ != es[j2].0@,
                keys.len() == out@.len(),
                idxs.len() == keys.len(),
                forall|j: int|
                    0 <= j < idxs.len() ==> 0 <= #[trigger] idxs[j] < i && keys[j]
                        == es[idxs[j]].0@,
                forall|j1: int, j2: int| 0 <= j1 < j2 < idxs.len() ==> idxs[j1] < idxs[j2],
                forall|l: int|
                    0 <= l < i && has_tag(#[trigger] es[l].1@, 1) ==> keys.contains(es[l].0@),
                forall|j: int|
                    0 <= j < keys.len() ==> m.contains_key(#[trigger] keys[j]) && m[keys[j]]
                        == enc_contract(Contract::Offered(out@[j])),
            decreases es.len() - i,
        {
            let v = &entries[i].1;
            if v.len() >= 1 && v[0] == 1 {
                let mut pos: usize = 1;
                let o = match read_offered(v, &mut pos) {
                    Ok(o) => o,
                    Err(e) => { return Err(e) },
                };
                if pos != v.len() {
                    return Err(Error::StorageError("record has trailing bytes".to_owned()));
                }
                proof {
                    assert(v@ =~= enc_contract(Contract::Offered(o)));
                }
                out.push(o);
                proof {
                    let old_keys = keys;
                    keys = keys.push(es[i as int].0@);
                    idxs = idxs.push(i as int);
                    assert forall|l: int|
                        0 <= l < i + 1 && has_tag(#[trigger] es[l].1@, 1) implies keys.contains(
                        es[l].0@,
                    ) by {
                        if l < i {
                            assert(old_keys.contains(es[l].0@));
                            let j = choose|j: int|
                                0 <= j < old_keys.len() && old_keys[j] == es[l].0@;
                            assert(keys[j] == es[l].0@);
                        } else {
                            assert(keys[keys.len() - 1] == es[l].0@);
                        }
                    }
                }
            }
            i = i + 1;
        }
        proof {
            assert(keys.no_duplicates()) by {
                assert forall|j1: int, j2: int|
                    0 <= j1 < keys.len() && 0 <= j2 < keys.len() && j1 != j2 implies keys[j1]
                    != keys[j2] by {
                    if j1 < j2 {
                        assert(es[idxs[j1]].0@ != es[idxs[j2]].0@);
                    } else {
                        assert(es[idxs[j2]].0@ != es[idxs[j1]].0@);
                    }
                }
            }
            assert forall|k: Seq<u8>|
                m.contains_key(k) && has_tag(m[k], 1) implies #[trigger] keys.contains(k) by {
                let j = choose|j: int| 0 <= j < es.len() && #[trigger] es[j].0@ == k;
                assert(es[j].1@ == m[k]);
                assert(keys.contains(es[j].0@));
            }
            assert forall|k: Seq<u8>| #[trigger]
                keys.contains(k) implies m.contains_key(k) && has_tag(m[k], 1) by {
                let j = choose|j: int| 0 <= j < keys.len() && keys[j] == k;
                assert(m[keys[j]] == enc_contract(Contract::Offered(out@[j])));
            }
            assert(offers_listing(contract_records(*self), keys, out@)) by {
                reveal(offers_listing);
            }
        }
        let r: Result<Vec<OfferedContract>, Error> = Ok(out);
        proof {
            assert(offers_listing(contract_records(*self), keys, (r->Ok_0)@));
            assert(exists|ks: Seq<Seq<u8>>|
                offers_listing(contract_records(*self), ks, (r->Ok_0)@));
        }
        r
    }
}

/// A filtered scan for contracts currently in the signed phase: `keys` enumerates exactly the keys whose
/// record carries that tag, and `out` holds the decoded record of each.
#[verifier::opaque]
pub open spec fn signed_contracts_listing(
    m: Map<Seq<u8>, Seq<u8>>,
    keys: Seq<Seq<u8>>,
    out: Seq<SignedContract>,
) -> bool {
    &&& keys.no_duplicates()
    &&& out.len() == keys.len()
    &&& forall|k: Seq<u8>| (m.contains_key(k) && has_tag(m[k], 3)) <==> #[trigger] keys.contains(k)
    &&& forall|i: int|
        0 <= i < keys.len() ==> m[#[trigger] keys[i]] == enc_contract(Contract::Signed(out[i]))
}

impl SledStorageProvider {
    /// Returns exactly the contracts currently in the signed phase, skipping every record whose tag byte
    /// names another phase without decoding its payload.
    pub fn get_signed_contracts(&self) -> (r: Result<Vec<SignedContract>, Error>)
        ensures
            r is Ok ==> exists|keys: Seq<Seq<u8>>|
                signed_contracts_listing(contract_records(*self), keys, (r->Ok_0)@),
            r is Err ==> r matches Err(Error::StorageError(_)),
    {
        let entries = match self.tree_entries(CONTRACT_TREE) {
            Ok(es) => es,
            Err(e) => { return Err(e) },
        };
        let ghost m = contract_records(*self);
        let ghost es = entries@;
        let mut out: Vec<SignedContract> = Vec::new();
        let ghost mut keys: Seq<Seq<u8>> = Seq::empty();
        let ghost mut idxs: Seq<int> = Seq::empty();
        let mut i: usize = 0;
        while i < entries.len()
            invariant
                i <= es.len(),
                es == entries@,
                m == contract_records(*self),
                forall|j: int|
                    0 <= j < es.len() ==> m.contains_key(#[trigger] es[j].0@) && m[es[j].0@]
                        == es[j].1@,
                forall|k: Seq<u8>|
                    m.contains_key(k) ==> exists|j: int| 0 <= j < es.len() && #[trigger] es[j].0@
                        == k,
                forall|j1: int, j2: int| 0 <= j1 < j2 < es.len() ==> es[j1].0@ != es[j2].0@,
                keys.len() == out@.len(),
                idxs.len() == keys.len(),
                forall|j: int|
                    0 <= j < idxs.len() ==> 0 <= #[trigger] idxs[j] < i && keys[j]
                        == es[idxs[j]].0@,
                forall|j1: int, j2: int| 0 <= j1 < j2 < idxs.len() ==> idxs[j1] < idxs[j2],
                forall|l: int|
                    0 <= l < i && has_tag(#[trigger] es[l].1@, 3) ==> keys.contains(es[l].0@),
                forall|j: int|
                    0 <= j < keys.len() ==> m.contains_key(#[trigger] keys[j]) && m[keys[j]]
                        == enc_contract(Contract::Signed(out@[j])),
            decreases es.len() - i,
        {
            let v = &entries[i].1;
            if v.len() >= 1 && v[0] == 3 {
                let mut pos: usize = 1;
                let o = match read_signed(v, &mut pos) {
                    Ok(o) => o,
                    Err(e) => { return Err(e) },
                };
                if pos != v.len() {
                    return Err(Error::StorageError("record has trailing bytes".to_owned()));
                }
                proof {
                    assert(v@ =~= enc_contract(Contract::Signed(o)));
                }
                out.push(o);
                proof {
                    let old_keys = keys;
                    keys = keys.push(es[i as int].0@);
                    idxs = idxs.push(i as int);
                    assert forall|l: int|
                        0 <= l < i + 1 && has_tag(#[trigger] es[l].1@, 3) implies keys.contains(
                        es[l].0@,
                    ) by {
                        if l < i {
                            assert(old_keys.contains(es[l].0@));
                            let j = choose|j: int|
                                0 <= j < old_keys.len() && old_keys[j] == es[l].0@;
                            assert(keys[j] == es[l].0@);
                        } else {
                            assert(keys[keys.len() - 1] == es[l].0@);
                        }
                    }
                }
            }
            i = i + 1;
        }
        proof {
            assert(keys.no_duplicates()) by {
                assert forall|j1: int, j2: int|
                    0 <= j1 < keys.len() && 0 <= j2 < keys.len() && j1 != j2 implies keys[j1]
                    != keys[j2] by {
                    if j1 < j2 {
                        assert(es[idxs[j1]].0@ != es[idxs[j2]].0@);
                    } else {
                        assert(es[idxs[j2]].0@ != es[idxs[j1]].0@);
                    }
                }
            }
            assert forall|k: Seq<u8>|
                m.contains_key(k) && has_tag(m[k], 3) implies #[trigger] keys.contains(k) by {
                let j = choose|j: int| 0 <= j < es.len() && #[trigger] es[j].0@ == k;
                assert(es[j].1@ == m[k]);
                assert(keys.contains(es[j].0@));
            }
            assert forall|k: Seq<u8>| #[trigger]
                keys.contains(k) implies m.contains_key(k) && has_tag(m[k], 3) by {
                let j = choose|j: int| 0 <= j < keys.len() && keys[j] == k;
                assert(m[keys[j]] == enc_contract(Contract::Signed(out@[j])));
            }
            assert(signed_contracts_listing(contract_records(*self), keys, out@)) by {
                reveal(signed_contracts_listing);
            }
        }
        let r: Result<Vec<SignedContract>, Error> = Ok(out);
        proof {
            assert(signed_contracts_listing(contract_records(*self), keys, (r->Ok_0)@));
            assert(exists|ks: Seq<Seq<u8>>|
                signed_contracts_listing(contract_records(*self), ks, (r->Ok_0)@));
        }
        r
    }
}


/// A filtered scan for contracts currently in the confirmed phase: `keys` enumerates exactly the keys whose
/// record carries that tag, and `out` holds the decoded record of each.
#[verifier::opaque]
pub open spec fn confirmed_contracts_listing(
    m: Map<Seq<u8>, Seq<u8>>,
    keys: Seq<Seq<u8>>,
    out: Seq<SignedContract>,
) -> bool {
    &&& keys.no_duplicates()
    &&& out.len() == keys.len()
    &&& forall|k: Seq<u8>| (m.contains_key(k) && has_tag(m[k], 4)) <==> #[trigger] keys.contains(k)
    &&& forall|i: int|
        0 <= i < keys.len() ==> m[#[trigger] keys[i]] == enc_contract(Contract::Confirmed(out[i]))
}

impl SledStorageProvider {
    /// Returns exactly the contracts currently in the confirmed phase, skipping every record whose tag byte
    /// names another phase without decoding its payload.
    pub fn get_confirmed_contracts(&self) -> (r: Result<Vec<SignedContract>, Error>)
        ensures
            r is Ok ==> exists|keys: Seq<Seq<u8>>|
                confirmed_contracts_listing(contract_records(*self), keys, (r->Ok_0)@),
            r is Err ==> r matches Err(Error::StorageError(_)),
    {
        let entries = match self.tree_entries(CONTRACT_TREE) {
            Ok(es) => es,
            Err(e) => { return Err(e) },
        };
        let ghost m = contract_records(*self);
        let ghost es = entries@;
        let mut out: Vec<SignedContract> = Vec::new();
        let ghost mut keys: Seq<Seq<u8>> = Seq::empty();
        let ghost mut idxs: Seq<int> = Seq::empty();
        let mut i: usize = 0;
        while i < entries.len()
            invariant
                i <= es.len(),
                es == entries@,
                m == contract_records(*self),
                forall|j: int|
                    0 <= j < es.len() ==> m.contains_key(#[trigger] es[j].0@) && m[es[j].0@]
                        == es[j].1@,
                forall|k: Seq<u8>|
                    m.contains_key(k) ==> exists|j: int| 0 <= j < es.len() && #[trigger] es[j].0@
                        == k,
                forall|j1: int, j2: int| 0 <= j1 < j2 < es.len() ==> es[j1].0@ != es[j2].0@,
                keys.len() == out@.len(),
                idxs.len() == keys.len(),
                forall|j: int|
                    0 <= j < idxs.len() ==> 0 <= #[trigger] idxs[j] < i && keys[j]
                        == es[idxs[j]].0@,
                forall|j1: int, j2: int| 0 <= j1 < j2 < idxs.len() ==> idxs[j1] < idxs[j2],
                forall|l: int|
                    0 <= l < i && has_tag(#[trigger] es[l].1@, 4) ==> keys.contains(es[l].0@),
                forall|j: int|
                    0 <= j < keys.len() ==> m.contains_key(#[trigger] keys[j]) && m[keys[j]]
                        == enc_contract(Contract::Confirmed(out@[j])),
            decreases es.len() - i,
        {
            let v = &entries[i].1;
            if v.len() >= 1 && v[0] == 4 {
                let mut pos: usize = 1;
                let o = match read_signed(v, &mut pos) {
                    Ok(o) => o,
                    Err(e) => { return Err(e) },
                };
                if pos != v.len() {
                    return Err(Error::StorageError("record has trailing bytes".to_owned()));
                }
                proof {
                    assert(v@ =~= enc_contract(Contract::Confirmed(o)));
                }
                out.push(o);
                proof {
                    let old_keys = keys;
                    keys = keys.push(es[i as int].0@);
                    idxs = idxs.push(i as int);
                    assert forall|l: int|
                        0 <= l < i + 1 && has_tag(#[trigger] es[l].1@, 4) implies keys.contains(
                        es[l].0@,
                    ) by {
                        if l < i {
                            assert(old_keys.contains(es[l].0@));
                            let j = choose|j: int|
                                0 <= j < old_keys.len() && old_keys[j] == es[l].0@;
                            assert(keys[j] == es[l].0@);
                        } else {
                            assert(keys[keys.len() - 1] == es[l].0@);
                        }
                    }
                }
            }
            i = i + 1;
        }
        proof {
            assert(keys.no_duplicates()) by {
                assert forall|j1: int, j2: int|
                    0 <= j1 < keys.len() && 0 <= j2 < keys.len() && j1 != j2 implies keys[j1]
                    != keys[j2] by {
                    if j1 < j2 {
                        assert(es[idxs[j1]].0@ != es[idxs[j2]].0@);
                    } else {
                        assert(es[idxs[j2]].0@ != es[idxs[j1]].0@);
                    }
                }
            }
            assert forall|k: Seq<u8>|
                m.contains_key(k) && has_tag(m[k], 4) implies #[trigger] keys.contains(k) by {
                let j = choose|j: int| 0 <= j < es.len() && #[trigger] es[j].0@ == k;
                assert(es[j].1@ == m[k]);
                assert(keys.contains(es[j].0@));
            }
            assert forall|k: Seq<u8>| #[trigger]
                keys.contains(k) implies m.contains_key(k) && has_tag(m[k], 4) by {
                let j = choose|j: int| 0 <= j < keys.len() && keys[j] == k;
                assert(m[keys[j]] == enc_contract(Contract::Confirmed(out@[j])));
            }
            assert(confirmed_contracts_listing(contract_records(*self), keys, out@)) by {
                reveal(confirmed_contracts_listing);
            }
        }
        let r: Result<Vec<SignedContract>, Error> = Ok(out);
        proof {
            assert(confirmed_contracts_listing(contract_records(*self), keys, (r->Ok_0)@));
            assert(exists|ks: Seq<Seq<u8>>|
                confirmed_contracts_listing(contract_records(*self), ks, (r->Ok_0)@));
        }
        r
    }
}


/// A filtered scan for channels currently in the offered phase: `keys` enumerates exactly the keys whose
/// record carries that tag, and `out` holds the decoded record of each.
#[verifier::opaque]
pub open spec fn offered_channels_listing(
    m: Map<Seq<u8>, Seq<u8>>,
    keys: Seq<Seq<u8>>,
    out: Seq<OfferedChannel>,
) -> bool {
    &&& keys.no_duplicates()
    &&& out.len() == keys.len()
    &&& forall|k: Seq<u8>| (m.contains_key(k) && has_tag(m[k], 100)) <==> #[trigger] keys.contains(k)
    &&& forall|i: int|
        0 <= i < keys.len() ==> m[#[trigger] keys[i]] == enc_channel(Channel::Offered(out[i]))
}

impl SledStorageProvider {
    /// Returns exactly the channels currently in the offered phase, skipping every record whose tag byte
    /// names another phase without decoding its payload.
    pub fn get_offered_channels(&self) -> (r: Result<Vec<OfferedChannel>, Error>)
        ensures
            r is Ok ==> exists|keys: Seq<Seq<u8>>|
                offered_channels_listing(channel_records(*self), keys, (r->Ok_0)@),
            r is Err ==> r matches Err(Error::StorageError(_)),
    {
        let entries = match self.tree_entries(CHANNEL_TREE) {
            Ok(es) => es,
            Err(e) => { return Err(e) },
        };
        let ghost m = channel_records(*self);
        let ghost es = entries@;
        let mut out: Vec<OfferedChannel> = Vec::new();
        let ghost mut keys: Seq<Seq<u8>> = Seq::empty();
        let ghost mut idxs: Seq<int> = Seq::empty();
        let mut i: usize = 0;
        while i < entries.len()
            invariant
                i <= es.len(),
                es == entries@,
                m == channel_records(*self),
                forall|j: int|
                    0 <= j < es.len() ==> m.contains_key(#[trigger] es[j].0@) && m[es[j].0@]
                        == es[j].1@,
                forall|k: Seq<u8>|
                    m.contains_key(k) ==> exists|j: int| 0 <= j < es.len() && #[trigger] es[j].0@
                        == k,
                forall|j1: int, j2: int| 0 <= j1 < j2 < es.len() ==> es[j1].0@ != es[j2].0@,
                keys.len() == out@.len(),
                idxs.len() == keys.len(),
                forall|j: int|
                    0 <= j < idxs.len() ==> 0 <= #[trigger] idxs[j] < i && keys[j]
                        == es[idxs[j]].0@,
                forall|j1: int, j2: int| 0 <= j1 < j2 < idxs.len() ==> idxs[j1] < idxs[j2],
                forall|l: int|
                    0 <= l < i && has_tag(#[trigger] es[l].1@, 100) ==> keys.contains(es[l].0@),
                forall|j: int|
                    0 <= j < keys.len() ==> m.contains_key(#[trigger] keys[j]) && m[keys[j]]
                        == enc_channel(Channel::Offered(out@[j])),
            decreases es.len() - i,
        {
            let v = &entries[i].1;
            if v.len() >= 1 && v[0] == 100 {
                let mut pos: usize = 1;
                let o = match read_offered_channel(v, &mut pos) {
                    Ok(o) => o,
                    Err(e) => { return Err(e) },
                };
                if pos != v.len() {
                    return Err(Error::StorageError("record has trailing bytes".to_owned()));
                }
                proof {
                    assert(v@ =~= enc_channel(Channel::Offered(o)));
                }
                out.push(o);
                proof {
                    let old_keys = keys;
                    keys = keys.push(es[i as int].0@);
                    idxs = idxs.push(i as int);
                    assert forall|l: int|
                        0 <= l < i + 1 && has_tag(#[trigger] es[l].1@, 100) implies keys.contains(
                        es[l].0@,
                    ) by {
                        if l < i {
                            assert(old_keys.contains(es[l].0@));
                            let j = choose|j: int|
                                0 <= j < old_keys.len() && old_keys[j] == es[l].0@;
                            assert(keys[j] == es[l].0@);
                        } else {
                            assert(keys[keys.len() - 1] == es[l].0@);
                        }
                    }
                }
            }
            i = i + 1;
        }
        proof {
            assert(keys.no_duplicates()) by {
                assert forall|j1: int, j2: int|
                    0 <= j1 < keys.len() && 0 <= j2 < keys.len() && j1 != j2 implies keys[j1]
                    != keys[j2] by {
                    if j1 < j2 {
                        assert(es[idxs[j1]].0@ != es[idxs[j2]].0@);
                    } else {
                        assert(es[idxs[j2]].0@ != es[idxs[j1]].0@);
                    }
                }
            }
            assert forall|k: Seq<u8>|
                m.contains_key(k) && has_tag(m[k], 100) implies #[trigger] keys.contains(k) by {
                let j = choose|j: int| 0 <= j < es.len() && #[trigger] es[j].0@ == k;
                assert(es[j].1@ == m[k]);
                assert(keys.contains(es[j].0@));
            }
            assert forall|k: Seq<u8>| #[trigger]
                keys.contains(k) implies m.contains_key(k) && has_tag(m[k], 100) by {
                let j = choose|j: int| 0 <= j < keys.len() && keys[j] == k;
                assert(m[keys[j]] == enc_channel(Channel::Offered(out@[j])));
            }
            assert(offered_channels_listing(channel_records(*self), keys, out@)) by {
                reveal(offered_channels_listing);
            }
        }
        let r: Result<Vec<OfferedChannel>, Error> = Ok(out);
        proof {
            assert(offered_channels_listing(channel_records(*self), keys, (r->Ok_0)@));
            assert(exists|ks: Seq<Seq<u8>>|
                offered_channels_listing(channel_records(*self), ks, (r->Ok_0)@));
        }
        r
    }
}

/// Whether a record answers a signed-channel query: with a sub-state
/// filter the two-byte tag prefix must match; without one the tag byte
/// alone decides and the sub-tag byte is skipped.
pub open spec fn signed_chan_matches(v: Seq<u8>, filter: Option<SignedChannelStateType>) -> bool {
    match filter {
        Option::Some(st) => v.len() >= 2 && v[0] == 102 && v[1] == substate_tag(st),
        Option::None => v.len() >= 1 && v[0] == 102,
    }
}

/// A filtered scan for signed channels: `keys` enumerates exactly the
/// keys whose record answers the query, `out` holds the decoded record of
/// each, and under a sub-state filter every returned channel is in that
/// sub-state.
#[verifier::opaque]
pub open spec fn signed_channels_listing(
    m: Map<Seq<u8>, Seq<u8>>,
    filter: Option<SignedChannelStateType>,
    keys: Seq<Seq<u8>>,
    out: Seq<SignedChannel>,
) -> bool {
    &&& keys.no_duplicates()
    &&& out.len() == keys.len()
    &&& forall|k: Seq<u8>|
        (m.contains_key(k) && signed_chan_matches(m[k], filter)) <==> #[trigger] keys.contains(k)
    &&& forall|i: int|
        0 <= i < keys.len() ==> m[#[trigger] keys[i]] == enc_channel(Channel::Signed(out[i]))
    &&& match filter {
        Option::Some(st) => forall|i: int| 0 <= i < out.len() ==> (#[trigger] out[i]).state == st,
        Option::None => true,
    }
}

impl SledStorageProvider {
    /// Returns exactly the channels in the signed phase that answer the
    /// query: all of them when no sub-state filter is supplied, and those
    /// in the given sub-state when one is.  With a filter the scan
    /// matches on the two-byte tag prefix; without one it matches on the
    /// tag byte alone and skips the sub-tag byte before decoding the
    /// payload.
    pub fn get_signed_channels(&self, channel_state: Option<SignedChannelStateType>) -> (r: Result<
        Vec<SignedChannel>,
        Error,
    >)
        ensures
            r is Ok ==> exists|keys: Seq<Seq<u8>>|
                signed_channels_listing(channel_records(*self), channel_state, keys, (r->Ok_0)@),
            r is Err ==> r matches Err(Error::StorageError(_)),
    {
        let entries = match self.tree_entries(CHANNEL_TREE) {
            Ok(es) => es,
            Err(e) => { return Err(e) },
        };
        let ghost m = channel_records(*self);
        let ghost es = entries@;
        let mut out: Vec<SignedChannel> = Vec::new();
        let ghost mut keys: Seq<Seq<u8>> = Seq::empty();
        let ghost mut idxs: Seq<int> = Seq::empty();
        let mut i: usize = 0;
        while i < entries.len()
            invariant
                i <= es.len(),
                es == entries@,
                m == channel_records(*self),
                forall|j: int|
                    0 <= j < es.len() ==> m.contains_key(#[trigger] es[j].0@) && m[es[j].0@]
                        == es[j].1@,
                forall|k: Seq<u8>|
                    m.contains_key(k) ==> exists|j: int| 0 <= j < es.len() && #[trigger] es[j].0@
                        == k,
                forall|j1: int, j2: int| 0 <= j1 < j2 < es.len() ==> es[j1].0@ != es[j2].0@,
                keys.len() == out@.len(),
                idxs.len() == keys.len(),
                forall|j: int|
                    0 <= j < idxs.len() ==> 0 <= #[trigger] idxs[j] < i && keys[j]
                        == es[idxs[j]].0@,
                forall|j1: int, j2: int| 0 <= j1 < j2 < idxs.len() ==> idxs[j1] < idxs[j2],
                forall|l: int|
                    0 <= l < i && signed_chan_matches(#[trigger] es[l].1@, channel_state)
                        ==> keys.contains(es[l].0@),
                forall|j: int|
                    0 <= j < keys.len() ==> m.contains_key(#[trigger] keys[j]) && m[keys[j]]
                        == enc_channel(Channel::Signed(out@[j])),
                match channel_state {
                    Option::Some(st) => forall|j: int|
                        0 <= j < out@.len() ==> (#[trigger] out@[j]).state == st,
                    Option::None => true,
                },
            decreases es.len() - i,
        {
            let v = &entries[i].1;
            let matched: bool = match &channel_state {
                Some(st) => {
                    let sp = substate_prefix(st);
                    v.len() >= 2 && v[0] == 102 && v[1] == sp
                },
                None => v.len() >= 1 && v[0] == 102,
            };
            proof {
                assert(matched == signed_chan_matches(es[i as int].1@, channel_state));
            }
            if matched {
                if v.len() < 2 {
                    return Err(Error::StorageError("record truncated".to_owned()));
                }
                let mut pos: usize = 2;
                let s = match read_signed_channel(v, &mut pos) {
                    Ok(s) => s,
                    Err(e) => { return Err(e) },
                };
                if pos != v.len() {
                    return Err(Error::StorageError("record has trailing bytes".to_owned()));
                }
                let sp = substate_prefix(&s.state);
                if v[1] != sp {
                    return Err(
                        Error::StorageError("sub-state tag disagrees with payload".to_owned()),
                    );
                }
                proof {
                    assert(v@ =~= enc_channel(Channel::Signed(s)));
                    match channel_state {
                        Option::Some(st) => {
                            crate::channel::lemma_substate_tag_injective(st, s.state);
                        },
                        Option::None => {},
                    }
                }
                out.push(s);
                proof {
                    let old_keys = keys;
                    keys = keys.push(es[i as int].0@);
                    idxs = idxs.push(i as int);
                    assert forall|l: int|
                        0 <= l < i + 1 && signed_chan_matches(
                            #[trigger] es[l].1@,
                            channel_state,
                        ) implies keys.contains(es[l].0@) by {
                        if l < i {
                            assert(old_keys.contains(es[l].0@));
                            let j = choose|j: int|
                                0 <= j < old_keys.len() && old_keys[j] == es[l].0@;
                            assert(keys[j] == es[l].0@);
                        } else {
                            assert(keys[keys.len() - 1] == es[l].0@);
                        }
                    }
                }
            }
            i = i + 1;
        }
        proof {
            assert(keys.no_duplicates()) by {
                assert forall|j1: int, j2: int|
                    0 <= j1 < keys.len() && 0 <= j2 < keys.len() && j1 != j2 implies keys[j1]
                    != keys[j2] by {
                    if j1 < j2 {
                        assert(es[idxs[j1]].0@ != es[idxs[j2]].0@);
                    } else {
                        assert(es[idxs[j2]].0@ != es[idxs[j1]].0@);
                    }
                }
            }
            assert forall|k: Seq<u8>|
                m.contains_key(k) && signed_chan_matches(m[k], channel_state) implies #[trigger]
            keys.contains(k) by {
                let j = choose|j: int| 0 <= j < es.len() && #[trigger] es[j].0@ == k;
                assert(es[j].1@ == m[k]);
                assert(keys.contains(es[j].0@));
            }
            assert forall|k: Seq<u8>| #[trigger]
                keys.contains(k) implies m.contains_key(k) && signed_chan_matches(
                m[k],
                channel_state,
            ) by {
                let j = choose|j: int| 0 <= j < keys.len() && keys[j] == k;
                assert(m[keys[j]] == enc_channel(Channel::Signed(out@[j])));
                assert(enc_channel(Channel::Signed(out@[j]))[0] == 102);
                assert(enc_channel(Channel::Signed(out@[j]))[1] == substate_tag(out@[j].state));
            }
            assert(signed_channels_listing(channel_records(*self), channel_state, keys, out@)) by {
                reveal(signed_channels_listing);
            }
        }
        let r: Result<Vec<SignedChannel>, Error> = Ok(out);
        proof {
            assert(signed_channels_listing(
                channel_records(*self),
                channel_state,
                keys,
                (r->Ok_0)@,
            ));
            assert(exists|ks: Seq<Seq<u8>>|
                signed_channels_listing(channel_records(*self), channel_state, ks, (r->Ok_0)@));
        }
        r
    }
}

} // verus!
