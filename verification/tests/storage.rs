//! Behaviour of the lifecycle engines against a real sled store.

use dlc_sled_storage_provider::chain_monitor::ChainMonitor;
use dlc_sled_storage_provider::channel::Channel;
use dlc_sled_storage_provider::channel::OfferedChannel;
use dlc_sled_storage_provider::channel::SignedChannel;
use dlc_sled_storage_provider::channel::SignedChannelStateType;
use dlc_sled_storage_provider::contract::AcceptedContract;
use dlc_sled_storage_provider::contract::Contract;
use dlc_sled_storage_provider::contract::ContractTerms;
use dlc_sled_storage_provider::contract::OfferedContract;
use dlc_sled_storage_provider::contract::SignedContract;
use dlc_sled_storage_provider::error::Error;
use dlc_sled_storage_provider::store::SledStorageProvider;

fn terms() -> ContractTerms {
    ContractTerms { offer_collateral: 100_000, accept_collateral: 50_000, fee_rate_per_vb: 2 }
}

fn offered(id_byte: u8) -> OfferedContract {
    OfferedContract { id: [id_byte; 32], counter_party: vec![2, 13, 57], terms: terms() }
}

fn accepted(temp: u8, perm: u8) -> AcceptedContract {
    AcceptedContract {
        offered_contract: offered(temp),
        contract_id: [perm; 32],
        accept_signatures: vec![90, 91],
    }
}

fn signed(temp: u8, perm: u8) -> SignedContract {
    SignedContract { accepted_contract: accepted(temp, perm), funding_txid: [77; 32] }
}

fn signed_channel(temp: u8, perm: u8, state: SignedChannelStateType) -> SignedChannel {
    SignedChannel {
        channel_id: [perm; 32],
        temporary_channel_id: [temp; 32],
        contract_id: [60; 32],
        state,
        update_idx: 1,
    }
}

fn fresh() -> SledStorageProvider {
    SledStorageProvider::new_temporary().expect("opening a scratch store")
}

#[test]
fn create_contract_can_be_retrieved() {
    let mut storage = fresh();
    let contract = offered(1);
    storage.create_contract(&contract).expect("creating the contract");
    let retrieved = storage.get_contract(&contract.id).expect("retrieving the contract");
    assert_eq!(retrieved, Some(Contract::Offered(contract)));
}

#[test]
fn create_contract_rejects_duplicate_id() {
    let mut storage = fresh();
    let contract = offered(1);
    storage.create_contract(&contract).expect("creating the contract");
    let second = storage.create_contract(&contract);
    assert!(matches!(second, Err(Error::InvalidState(_))));
}

#[test]
fn update_contract_is_updated() {
    let mut storage = fresh();
    let offered_contract = offered(1);
    let accepted_contract = Contract::Accepted(accepted(1, 2));
    storage.create_contract(&offered_contract).expect("creating the contract");
    storage.update_contract(&accepted_contract).expect("updating the contract");
    let retrieved = storage.get_contract(&[2; 32]).expect("retrieving the contract");
    assert_eq!(retrieved, Some(accepted_contract));
}

#[test]
fn update_to_signed_rekeys_atomically() {
    let mut storage = fresh();
    let offered_contract = offered(1);
    storage.create_contract(&offered_contract).expect("creating the contract");
    let signed_contract = Contract::Signed(signed(1, 2));
    storage.update_contract(&signed_contract).expect("updating the contract");
    let by_temporary = storage.get_contract(&[1; 32]).expect("querying the temporary id");
    assert_eq!(by_temporary, None);
    let by_permanent = storage.get_contract(&[2; 32]).expect("querying the permanent id");
    assert_eq!(by_permanent, Some(signed_contract));
    let all = storage.get_contracts().expect("listing all contracts");
    assert_eq!(all.len(), 1);
}

#[test]
fn update_to_accepted_retires_temporary_id() {
    let mut storage = fresh();
    storage.create_contract(&offered(1)).expect("creating the contract");
    let accepted_contract = Contract::Accepted(accepted(1, 2));
    storage.update_contract(&accepted_contract).expect("updating the contract");
    let by_temporary = storage.get_contract(&[1; 32]).expect("querying the temporary id");
    assert_eq!(by_temporary, None);
    let by_permanent = storage.get_contract(&[2; 32]).expect("querying the permanent id");
    assert_eq!(by_permanent, Some(accepted_contract));
}

#[test]
fn delete_contract_is_deleted() {
    let mut storage = fresh();
    let contract = offered(1);
    storage.create_contract(&contract).expect("creating the contract");
    storage.delete_contract(&contract.id).expect("deleting the contract");
    let retrieved = storage.get_contract(&contract.id).expect("querying the contract");
    assert_eq!(retrieved, None);
}

fn insert_offered_signed_and_confirmed(storage: &mut SledStorageProvider) {
    storage.create_contract(&offered(1)).expect("creating the offer");
    storage.update_contract(&Contract::Signed(signed(10, 11))).expect("storing a signed one");
    storage.update_contract(&Contract::Signed(signed(12, 13))).expect("storing a signed one");
    storage
        .update_contract(&Contract::Confirmed(signed(14, 15)))
        .expect("storing a confirmed one");
    storage
        .update_contract(&Contract::Confirmed(signed(16, 17)))
        .expect("storing a confirmed one");
}

#[test]
fn get_signed_contracts_only_signed() {
    let mut storage = fresh();
    insert_offered_signed_and_confirmed(&mut storage);
    let signed_contracts = storage.get_signed_contracts().expect("listing signed contracts");
    assert_eq!(2, signed_contracts.len());
}

#[test]
fn get_confirmed_contracts_only_confirmed() {
    let mut storage = fresh();
    insert_offered_signed_and_confirmed(&mut storage);
    let confirmed = storage.get_confirmed_contracts().expect("listing confirmed contracts");
    assert_eq!(2, confirmed.len());
}

#[test]
fn get_offered_contracts_only_offered() {
    let mut storage = fresh();
    insert_offered_signed_and_confirmed(&mut storage);
    let offers = storage.get_contract_offers().expect("listing contract offers");
    assert_eq!(1, offers.len());
    assert_eq!(offers[0], offered(1));
}

#[test]
fn get_contracts_returns_every_phase() {
    let mut storage = fresh();
    insert_offered_signed_and_confirmed(&mut storage);
    let all = storage.get_contracts().expect("listing all contracts");
    assert_eq!(5, all.len());
}

#[test]
fn upsert_channel_with_contract_makes_both_visible() {
    let mut storage = fresh();
    let channel = signed_channel(40, 41, SignedChannelStateType::Established);
    let contract = Contract::Signed(signed(1, 2));
    storage
        .upsert_channel(Channel::Signed(channel.clone()), Some(contract.clone()))
        .expect("upserting channel and contract");
    let got_channel = storage.get_channel(&[41; 32]).expect("retrieving the channel");
    assert_eq!(got_channel, Some(Channel::Signed(channel)));
    let got_contract = storage.get_contract(&[2; 32]).expect("retrieving the contract");
    assert_eq!(got_contract, Some(contract));
}

#[test]
fn upsert_signed_channel_rekeys_atomically() {
    let mut storage = fresh();
    let offer = OfferedChannel {
        temporary_channel_id: [40; 32],
        offered_contract_id: [60; 32],
        counter_party: vec![3, 14],
    };
    storage.upsert_channel(Channel::Offered(offer), None).expect("upserting the offer");
    let channel = signed_channel(40, 41, SignedChannelStateType::Established);
    storage
        .upsert_channel(Channel::Signed(channel.clone()), None)
        .expect("upserting the signed channel");
    let by_temporary = storage.get_channel(&[40; 32]).expect("querying the temporary id");
    assert_eq!(by_temporary, None);
    let by_permanent = storage.get_channel(&[41; 32]).expect("querying the permanent id");
    assert_eq!(by_permanent, Some(Channel::Signed(channel)));
}

#[test]
fn delete_channel_is_deleted() {
    let mut storage = fresh();
    let channel = signed_channel(40, 41, SignedChannelStateType::Established);
    storage.upsert_channel(Channel::Signed(channel), None).expect("upserting the channel");
    storage.delete_channel(&[41; 32]).expect("deleting the channel");
    let retrieved = storage.get_channel(&[41; 32]).expect("querying the channel");
    assert_eq!(retrieved, None);
}

#[test]
fn get_offered_channels_only_offered() {
    let mut storage = fresh();
    let offer = OfferedChannel {
        temporary_channel_id: [40; 32],
        offered_contract_id: [60; 32],
        counter_party: vec![3, 14],
    };
    storage.upsert_channel(Channel::Offered(offer.clone()), None).expect("upserting the offer");
    let channel = signed_channel(42, 43, SignedChannelStateType::Settled);
    storage.upsert_channel(Channel::Signed(channel), None).expect("upserting the signed one");
    let offers = storage.get_offered_channels().expect("listing offered channels");
    assert_eq!(1, offers.len());
    assert_eq!(offers[0], offer);
}

#[test]
fn get_signed_channels_filters_by_substate() {
    let mut storage = fresh();
    let established = signed_channel(40, 41, SignedChannelStateType::Established);
    storage
        .upsert_channel(Channel::Signed(established.clone()), None)
        .expect("upserting the channel");
    let with_established = storage
        .get_signed_channels(Some(SignedChannelStateType::Established))
        .expect("filtered listing");
    assert_eq!(with_established, vec![established.clone()]);
    let with_closed = storage
        .get_signed_channels(Some(SignedChannelStateType::Closed))
        .expect("filtered listing");
    assert!(with_closed.is_empty());
    let unfiltered = storage.get_signed_channels(None).expect("unfiltered listing");
    assert_eq!(unfiltered, vec![established]);
}

#[test]
fn get_signed_channels_counts_per_substate() {
    let mut storage = fresh();
    let a = signed_channel(40, 41, SignedChannelStateType::Established);
    let b = signed_channel(42, 43, SignedChannelStateType::Established);
    let c = signed_channel(44, 45, SignedChannelStateType::SettledOffered);
    for ch in vec![a, b, c] {
        storage.upsert_channel(Channel::Signed(ch), None).expect("upserting a channel");
    }
    let established = storage
        .get_signed_channels(Some(SignedChannelStateType::Established))
        .expect("filtered listing");
    assert_eq!(2, established.len());
    let all = storage.get_signed_channels(None).expect("unfiltered listing");
    assert_eq!(3, all.len());
}

#[test]
fn chain_monitor_starts_empty() {
    let storage = fresh();
    let got = storage.get_chain_monitor().expect("reading the snapshot");
    assert_eq!(got, None);
}

#[test]
fn chain_monitor_overwrite_keeps_only_second() {
    let mut storage = fresh();
    let first = ChainMonitor { data: vec![1, 2, 3] };
    let second = ChainMonitor { data: vec![4, 5] };
    storage.persist_chain_monitor(&first).expect("persisting the first snapshot");
    storage.persist_chain_monitor(&second).expect("persisting the second snapshot");
    let got = storage.get_chain_monitor().expect("reading the snapshot");
    assert_eq!(got, Some(second));
}

#[test]
fn store_opened_by_path_persists_snapshot() {
    let mut storage =
        SledStorageProvider::new("/tmp/dlc_sled_storage_provider_path_test").expect("opening");
    let snapshot = ChainMonitor { data: vec![6, 7, 8] };
    storage.persist_chain_monitor(&snapshot).expect("persisting the snapshot");
    let got = storage.get_chain_monitor().expect("reading the snapshot");
    assert_eq!(got, Some(snapshot));
}
