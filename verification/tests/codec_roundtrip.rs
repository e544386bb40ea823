//! Round-trip and rejection behaviour of the tagged record codec.

use dlc_sled_storage_provider::channel::deserialize_channel;
use dlc_sled_storage_provider::channel::serialize_channel;
use dlc_sled_storage_provider::channel::AcceptedChannel;
use dlc_sled_storage_provider::channel::Channel;
use dlc_sled_storage_provider::channel::FailedAccept;
use dlc_sled_storage_provider::channel::FailedSign;
use dlc_sled_storage_provider::channel::OfferedChannel;
use dlc_sled_storage_provider::channel::SignedChannel;
use dlc_sled_storage_provider::channel::SignedChannelStateType;
use dlc_sled_storage_provider::contract::deserialize_contract;
use dlc_sled_storage_provider::contract::serialize_contract;
use dlc_sled_storage_provider::contract::AcceptedContract;
use dlc_sled_storage_provider::contract::ClosedContract;
use dlc_sled_storage_provider::contract::Contract;
use dlc_sled_storage_provider::contract::ContractTerms;
use dlc_sled_storage_provider::contract::FailedAcceptContract;
use dlc_sled_storage_provider::contract::FailedSignContract;
use dlc_sled_storage_provider::contract::OfferedContract;
use dlc_sled_storage_provider::contract::SignedContract;
use dlc_sled_storage_provider::error::Error;

fn terms() -> ContractTerms {
    ContractTerms { offer_collateral: 100_000, accept_collateral: 50_000, fee_rate_per_vb: 2 }
}

fn offered(id_byte: u8) -> OfferedContract {
    OfferedContract { id: [id_byte; 32], counter_party: vec![2, 13, 57], terms: terms() }
}

fn accepted(temp: u8, perm: u8) -> AcceptedContract {
    AcceptedContract {
        offered_contract: offered(temp),
        contract_id: [perm; 32],
        accept_signatures: vec![90, 91, 92, 93],
    }
}

fn signed(temp: u8, perm: u8) -> SignedContract {
    SignedContract { accepted_contract: accepted(temp, perm), funding_txid: [77; 32] }
}

fn signed_channel(state: SignedChannelStateType) -> SignedChannel {
    SignedChannel {
        channel_id: [21; 32],
        temporary_channel_id: [20; 32],
        contract_id: [22; 32],
        state,
        update_idx: 3,
    }
}

fn all_substates() -> Vec<SignedChannelStateType> {
    vec![
        SignedChannelStateType::Established,
        SignedChannelStateType::SettledOffered,
        SignedChannelStateType::SettledReceived,
        SignedChannelStateType::SettledAccepted,
        SignedChannelStateType::SettledConfirmed,
        SignedChannelStateType::Settled,
        SignedChannelStateType::SettleClosing,
        SignedChannelStateType::Closing,
        SignedChannelStateType::Closed,
        SignedChannelStateType::CounterClosed,
        SignedChannelStateType::ClosedPunished,
        SignedChannelStateType::CollaborativeCloseOffered,
        SignedChannelStateType::CollaborativelyClosed,
        SignedChannelStateType::RenewAccepted,
        SignedChannelStateType::RenewOffered,
        SignedChannelStateType::RenewConfirmed,
    ]
}

#[test]
fn contract_roundtrip_every_phase() {
    let phases = vec![
        Contract::Offered(offered(1)),
        Contract::Accepted(accepted(1, 2)),
        Contract::Signed(signed(1, 2)),
        Contract::Confirmed(signed(1, 2)),
        Contract::Closed(ClosedContract { contract_id: [2; 32], payout: 75_000 }),
        Contract::Refunded(signed(1, 2)),
        Contract::FailedAccept(FailedAcceptContract {
            offered_contract: offered(1),
            error_message: vec![110, 111],
        }),
        Contract::FailedSign(FailedSignContract {
            accepted_contract: accepted(1, 2),
            error_message: vec![112],
        }),
    ];
    for c in phases {
        let bytes = serialize_contract(&c);
        let back = deserialize_contract(&bytes).expect("decoding an encoded contract");
        assert_eq!(back, c);
    }
}

#[test]
fn channel_roundtrip_every_phase() {
    let phases = vec![
        Channel::Offered(OfferedChannel {
            temporary_channel_id: [30; 32],
            offered_contract_id: [31; 32],
            counter_party: vec![3, 14, 15],
        }),
        Channel::Accepted(AcceptedChannel {
            channel_id: [32; 32],
            temporary_channel_id: [30; 32],
            accepted_contract_id: [31; 32],
        }),
        Channel::Signed(signed_channel(SignedChannelStateType::Established)),
        Channel::FailedAccept(FailedAccept {
            temporary_channel_id: [30; 32],
            error_message: vec![120],
        }),
        Channel::FailedSign(FailedSign { channel_id: [32; 32], error_message: vec![121, 122] }),
    ];
    for c in phases {
        let bytes = serialize_channel(&c);
        let back = deserialize_channel(&bytes).expect("decoding an encoded channel");
        assert_eq!(back, c);
    }
}

#[test]
fn signed_channel_roundtrip_every_substate() {
    for st in all_substates() {
        let c = Channel::Signed(signed_channel(st));
        let bytes = serialize_channel(&c);
        assert_eq!(bytes[0], 102);
        let back = deserialize_channel(&bytes).expect("decoding an encoded signed channel");
        assert_eq!(back, c);
    }
}

#[test]
fn offered_contract_exact_encoding() {
    let o = OfferedContract {
        id: [5; 32],
        counter_party: vec![9, 8],
        terms: ContractTerms { offer_collateral: 1, accept_collateral: 2, fee_rate_per_vb: 3 },
    };
    let bytes = serialize_contract(&Contract::Offered(o));
    let mut expected: Vec<u8> = Vec::new();
    expected.push(1);
    expected.extend_from_slice(&[5; 32]);
    expected.extend_from_slice(&[0, 0, 0, 0, 0, 0, 0, 2]);
    expected.extend_from_slice(&[9, 8]);
    expected.extend_from_slice(&[0, 0, 0, 0, 0, 0, 0, 1]);
    expected.extend_from_slice(&[0, 0, 0, 0, 0, 0, 0, 2]);
    expected.extend_from_slice(&[0, 0, 0, 0, 0, 0, 0, 3]);
    assert_eq!(bytes, expected);
}

#[test]
fn signed_channel_record_carries_sub_tag() {
    let c = signed_channel(SignedChannelStateType::SettledOffered);
    let bytes = serialize_channel(&Channel::Signed(c));
    assert_eq!(bytes[0], 102);
    assert_eq!(bytes[1], 2);
}

#[test]
fn extreme_values_roundtrip() {
    let o = OfferedContract {
        id: [255; 32],
        counter_party: Vec::new(),
        terms: ContractTerms {
            offer_collateral: u64::MAX,
            accept_collateral: 0,
            fee_rate_per_vb: u64::MAX,
        },
    };
    let c = Contract::FailedAccept(FailedAcceptContract {
        offered_contract: o,
        error_message: Vec::new(),
    });
    let bytes = serialize_contract(&c);
    assert_eq!(deserialize_contract(&bytes).expect("decoding"), c);
}

#[test]
fn unknown_contract_tag_is_typed_error() {
    let r = deserialize_contract(&vec![42, 0, 0, 0]);
    assert!(matches!(r, Err(Error::StorageError(_))));
}

#[test]
fn unknown_channel_tag_is_typed_error() {
    let r = deserialize_channel(&vec![1, 0, 0, 0]);
    assert!(matches!(r, Err(Error::StorageError(_))));
}

#[test]
fn unknown_substate_tag_is_typed_error() {
    let mut bytes = serialize_channel(&Channel::Signed(signed_channel(
        SignedChannelStateType::Established,
    )));
    // corrupt the sub-state byte inside the payload
    bytes[98] = 99;
    let r = deserialize_channel(&bytes);
    assert!(matches!(r, Err(Error::StorageError(_))));
}

#[test]
fn empty_record_is_typed_error() {
    assert!(matches!(deserialize_contract(&Vec::new()), Err(Error::StorageError(_))));
    assert!(matches!(deserialize_channel(&Vec::new()), Err(Error::StorageError(_))));
}

#[test]
fn truncated_record_is_typed_error() {
    let mut bytes = serialize_contract(&Contract::Offered(offered(1)));
    bytes.truncate(bytes.len() - 1);
    assert!(matches!(deserialize_contract(&bytes), Err(Error::StorageError(_))));
}

#[test]
fn trailing_bytes_are_typed_error() {
    let mut bytes = serialize_contract(&Contract::Offered(offered(1)));
    bytes.push(0);
    assert!(matches!(deserialize_contract(&bytes), Err(Error::StorageError(_))));
}
