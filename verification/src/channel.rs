//! The channel lifecycle model: the top-level phases, the nested sub-state
//! of an established channel's settlement cycle, the tagged encoding of
//! each record, and the exact codec proofs.
//!
//! Channel tags occupy their own range, disjoint from contract tags; the
//! record of a channel in the signed phase carries a second tag byte naming
//! its sub-state, so that a filtered scan can match on the two-byte prefix
//! without decoding the payload.

use vstd::prelude::*;

use crate::codec::enc_bytes;
use crate::codec::enc_u64;
use crate::codec::lemma_concat_split;
use crate::codec::lemma_subrange_concat;
use crate::codec::lemma_u64_bytes_roundtrip;
use crate::codec::lemma_u64_roundtrip;
use crate::codec::read_bytes;
use crate::codec::read_id;
use crate::codec::read_u64;
use crate::codec::read_u8;
use crate::codec::write_bytes;
use crate::codec::write_id;
use crate::codec::write_u64;
use crate::contract::ContractId;
use crate::error::Error;

verus! {

/// A permanent channel identifier, assigned once a channel is accepted.
pub type ChannelId = [u8; 32];

/// The identifier under which a channel is addressed while it is being
/// negotiated.
pub type TemporaryChannelId = [u8; 32];

/// The settlement sub-state of a channel in the signed phase.
#[derive(Debug, Clone, Copy, PartialEq, Eq, Structural)]
pub enum SignedChannelStateType {
    /// The channel is established and its contract is live.
    Established,
    /// An off-chain settlement was offered to the counterparty.
    SettledOffered,
    /// An off-chain settlement offer was received.
    SettledReceived,
    /// A received settlement offer was accepted.
    SettledAccepted,
    /// The settlement was confirmed by the counterparty.
    SettledConfirmed,
    /// The channel is settled off-chain.
    Settled,
    /// A settled channel is being closed on-chain.
    SettleClosing,
    /// The channel is being closed on-chain.
    Closing,
    /// The channel was closed on-chain.
    Closed,
    /// The counterparty closed the channel on-chain.
    CounterClosed,
    /// A stale state broadcast was punished and the channel closed.
    ClosedPunished,
    /// A collaborative close was offered.
    CollaborativeCloseOffered,
    /// The channel was closed collaboratively.
    CollaborativelyClosed,
    /// A renewal offer was accepted.
    RenewAccepted,
    /// A renewal of the contract was offered.
    RenewOffered,
    /// The renewal was confirmed by the counterparty.
    RenewConfirmed,
}

/// A channel proposal sent to a counterparty, awaiting acceptance.
#[derive(Debug, Clone, PartialEq, Eq)]
pub struct OfferedChannel {
    /// The temporary id under which the proposal is addressed.
    pub temporary_channel_id: TemporaryChannelId,
    /// The id of the contract offered inside the channel.
    pub offered_contract_id: ContractId,
    /// The serialized public key of the counterparty.
    pub counter_party: Vec<u8>,
}

/// A channel the counterparty accepted; the own signature is pending.
#[derive(Debug, Clone, PartialEq, Eq)]
pub struct AcceptedChannel {
    /// The permanent id assigned on acceptance.
    pub channel_id: ChannelId,
    /// The temporary id the channel was negotiated under.
    pub temporary_channel_id: TemporaryChannelId,
    /// The id of the contract accepted inside the channel.
    pub accepted_contract_id: ContractId,
}

/// An established channel, carrying its settlement sub-state and exactly
/// one active contract.
#[derive(Debug, Clone, PartialEq, Eq)]
pub struct SignedChannel {
    /// The permanent id of the channel.
    pub channel_id: ChannelId,
    /// The temporary id the channel was negotiated under.
    pub temporary_channel_id: TemporaryChannelId,
    /// The id of the contract currently active inside the channel.
    pub contract_id: ContractId,
    /// The sub-state of the settlement cycle.
    pub state: SignedChannelStateType,
    /// The number of state updates performed on the channel.
    pub update_idx: u64,
}

/// A channel whose accept step failed.
#[derive(Debug, Clone, PartialEq, Eq)]
pub struct FailedAccept {
    /// The temporary id of the channel whose acceptance failed.
    pub temporary_channel_id: TemporaryChannelId,
    /// The reason the accept step failed.
    pub error_message: Vec<u8>,
}

/// A channel whose signing step failed.
#[derive(Debug, Clone, PartialEq, Eq)]
pub struct FailedSign {
    /// The permanent id of the channel whose signing failed.
    pub channel_id: ChannelId,
    /// The reason the signing step failed.
    pub error_message: Vec<u8>,
}

/// A channel in one of the phases of its lifecycle.
#[derive(Debug, Clone, PartialEq, Eq)]
pub enum Channel {
    /// A proposal sent, awaiting the counterparty.
    Offered(OfferedChannel),
    /// The counterparty accepted; the own signature is pending.
    Accepted(AcceptedChannel),
    /// Established, with a live settlement sub-state.
    Signed(SignedChannel),
    /// The accept step failed.
    FailedAccept(FailedAccept),
    /// The signing step failed.
    FailedSign(FailedSign),
}

/// Two offered records that carry the same ids and counterparty bytes.
pub open spec fn offered_channel_equiv(a: OfferedChannel, b: OfferedChannel) -> bool {
    a.temporary_channel_id@ == b.temporary_channel_id@ && a.offered_contract_id@
        == b.offered_contract_id@ && a.counter_party@ == b.counter_party@
}

/// Two accepted records that carry the same ids.
pub open spec fn accepted_channel_equiv(a: AcceptedChannel, b: AcceptedChannel) -> bool {
    a.channel_id@ == b.channel_id@ && a.temporary_channel_id@ == b.temporary_channel_id@
        && a.accepted_contract_id@ == b.accepted_contract_id@
}

/// Two signed records that carry the same ids, sub-state and update count.
pub open spec fn signed_channel_equiv(a: SignedChannel, b: SignedChannel) -> bool {
    a.channel_id@ == b.channel_id@ && a.temporary_channel_id@ == b.temporary_channel_id@
        && a.contract_id@ == b.contract_id@ && a.state == b.state && a.update_idx == b.update_idx
}

/// Two failed-accept records that carry the same id and reason.
pub open spec fn failed_accept_channel_equiv(a: FailedAccept, b: FailedAccept) -> bool {
    a.temporary_channel_id@ == b.temporary_channel_id@ && a.error_message@ == b.error_message@
}

/// Two failed-sign records that carry the same id and reason.
pub open spec fn failed_sign_channel_equiv(a: FailedSign, b: FailedSign) -> bool {
    a.channel_id@ == b.channel_id@ && a.error_message@ == b.error_message@
}

/// Two channels in the same phase whose records carry the same values.
pub open spec fn channel_equiv(a: Channel, b: Channel) -> bool {
    match (a, b) {
        (Channel::Offered(x), Channel::Offered(y)) => offered_channel_equiv(x, y),
        (Channel::Accepted(x), Channel::Accepted(y)) => accepted_channel_equiv(x, y),
        (Channel::Signed(x), Channel::Signed(y)) => signed_channel_equiv(x, y),
        (Channel::FailedAccept(x), Channel::FailedAccept(y)) => failed_accept_channel_equiv(x, y),
        (Channel::FailedSign(x), Channel::FailedSign(y)) => failed_sign_channel_equiv(x, y),
        _ => false,
    }
}

/// The stable one-byte tag of each channel phase, disjoint from the
/// contract tag range.
pub open spec fn channel_tag(c: Channel) -> u8 {
    match c {
        Channel::Offered(_) => 100,
        Channel::Accepted(_) => 101,
        Channel::Signed(_) => 102,
        Channel::FailedAccept(_) => 103,
        Channel::FailedSign(_) => 104,
    }
}

/// The stable one-byte tag of each settlement sub-state.
pub open spec fn substate_tag(st: SignedChannelStateType) -> u8 {
    match st {
        SignedChannelStateType::Established => 1,
        SignedChannelStateType::SettledOffered => 2,
        SignedChannelStateType::SettledReceived => 3,
        SignedChannelStateType::SettledAccepted => 4,
        SignedChannelStateType::SettledConfirmed => 5,
        SignedChannelStateType::Settled => 6,
        SignedChannelStateType::SettleClosing => 7,
        SignedChannelStateType::Closing => 8,
        SignedChannelStateType::Closed => 9,
        SignedChannelStateType::CounterClosed => 10,
        SignedChannelStateType::ClosedPunished => 11,
        SignedChannelStateType::CollaborativeCloseOffered => 12,
        SignedChannelStateType::CollaborativelyClosed => 13,
        SignedChannelStateType::RenewAccepted => 14,
        SignedChannelStateType::RenewOffered => 15,
        SignedChannelStateType::RenewConfirmed => 16,
    }
}

/// The payload of an offered channel record.
pub open spec fn enc_offered_channel(o: OfferedChannel) -> Seq<u8> {
    o.temporary_channel_id@ + o.offered_contract_id@ + enc_bytes(o.counter_party@)
}

/// The payload of an accepted channel record.
pub open spec fn enc_accepted_channel(a: AcceptedChannel) -> Seq<u8> {
    a.channel_id@ + a.temporary_channel_id@ + a.accepted_contract_id@
}

/// The payload of a signed channel record.  The sub-state is part of the
/// payload; the record header repeats it as the sub-tag byte.
pub open spec fn enc_signed_channel(s: SignedChannel) -> Seq<u8> {
    s.channel_id@ + s.temporary_channel_id@ + s.contract_id@ + seq![substate_tag(s.state)]
        + enc_u64(s.update_idx)
}

/// The payload of a failed-accept channel record.
pub open spec fn enc_failed_accept_channel(f: FailedAccept) -> Seq<u8> {
    f.temporary_channel_id@ + enc_bytes(f.error_message@)
}

/// The payload of a failed-sign channel record.
pub open spec fn enc_failed_sign_channel(f: FailedSign) -> Seq<u8> {
    f.channel_id@ + enc_bytes(f.error_message@)
}

/// The payload bytes of a channel record, without the leading tag bytes.
pub open spec fn enc_channel_payload(c: Channel) -> Seq<u8> {
    match c {
        Channel::Offered(o) => enc_offered_channel(o),
        Channel::Accepted(a) => enc_accepted_channel(a),
        Channel::Signed(s) => enc_signed_channel(s),
        Channel::FailedAccept(f) => enc_failed_accept_channel(f),
        Channel::FailedSign(f) => enc_failed_sign_channel(f),
    }
}

/// The full record of a channel: its tag byte, a sub-tag byte for the
/// signed phase only, then its payload.
pub open spec fn enc_channel(c: Channel) -> Seq<u8> {
    match c {
        Channel::Signed(s) => seq![102u8, substate_tag(s.state)] + enc_signed_channel(s),
        _ => seq![channel_tag(c)] + enc_channel_payload(c),
    }
}

impl Channel {
    /// The id under which the record of this phase is keyed: the permanent
    /// id once one is assigned, the temporary id otherwise.
    pub open spec fn spec_id(self) -> Seq<u8> {
        match self {
            Channel::Offered(o) => o.temporary_channel_id@,
            Channel::Accepted(a) => a.channel_id@,
            Channel::Signed(s) => s.channel_id@,
            Channel::FailedAccept(f) => f.temporary_channel_id@,
            Channel::FailedSign(f) => f.channel_id@,
        }
    }

    /// The temporary id a channel was negotiated under.
    pub open spec fn spec_temporary_id(self) -> Seq<u8> {
        match self {
            Channel::Offered(o) => o.temporary_channel_id@,
            Channel::Accepted(a) => a.temporary_channel_id@,
            Channel::Signed(s) => s.temporary_channel_id@,
            Channel::FailedAccept(f) => f.temporary_channel_id@,
            Channel::FailedSign(f) => f.channel_id@,
        }
    }

    /// Returns the id under which the record of this phase is keyed.
    pub fn get_id(&self) -> (r: ChannelId)
        ensures
            r@ == self.spec_id(),
    {
        match self {
            Channel::Offered(o) => o.temporary_channel_id,
            Channel::Accepted(a) => a.channel_id,
            Channel::Signed(s) => s.channel_id,
            Channel::FailedAccept(f) => f.temporary_channel_id,
            Channel::FailedSign(f) => f.channel_id,
        }
    }

    /// Returns the temporary id the channel was negotiated under.  A
    /// channel whose signing failed carries none.
    pub fn get_temporary_id(&self) -> (r: TemporaryChannelId)
        requires
            !(*self is FailedSign),
        ensures
            r@ == self.spec_temporary_id(),
    {
        match self {
            Channel::Offered(o) => o.temporary_channel_id,
            Channel::Accepted(a) => a.temporary_channel_id,
            Channel::Signed(s) => s.temporary_channel_id,
            Channel::FailedAccept(f) => f.temporary_channel_id,
            Channel::FailedSign(f) => f.channel_id,
        }
    }
}

/// Returns the stable sub-tag byte of a settlement sub-state.
pub fn substate_prefix(st: &SignedChannelStateType) -> (r: u8)
    ensures
        r == substate_tag(*st),
{
    match st {
        SignedChannelStateType::Established => 1,
        SignedChannelStateType::SettledOffered => 2,
        SignedChannelStateType::SettledReceived => 3,
        SignedChannelStateType::SettledAccepted => 4,
        SignedChannelStateType::SettledConfirmed => 5,
        SignedChannelStateType::Settled => 6,
        SignedChannelStateType::SettleClosing => 7,
        SignedChannelStateType::Closing => 8,
        SignedChannelStateType::Closed => 9,
        SignedChannelStateType::CounterClosed => 10,
        SignedChannelStateType::ClosedPunished => 11,
        SignedChannelStateType::CollaborativeCloseOffered => 12,
        SignedChannelStateType::CollaborativelyClosed => 13,
        SignedChannelStateType::RenewAccepted => 14,
        SignedChannelStateType::RenewOffered => 15,
        SignedChannelStateType::RenewConfirmed => 16,
    }
}

/// Each sub-tag value names at most one sub-state, and all sub-tags lie in
/// the closed range of the enumeration.
proof fn lemma_substate_tag_cases(st: SignedChannelStateType)
    ensures
        1 <= substate_tag(st) <= 16,
        substate_tag(st) == 1 ==> st is Established,
        substate_tag(st) == 2 ==> st is SettledOffered,
        substate_tag(st) == 3 ==> st is SettledReceived,
        substate_tag(st) == 4 ==> st is SettledAccepted,
        substate_tag(st) == 5 ==> st is SettledConfirmed,
        substate_tag(st) == 6 ==> st is Settled,
        substate_tag(st) == 7 ==> st is SettleClosing,
        substate_tag(st) == 8 ==> st is Closing,
        substate_tag(st) == 9 ==> st is Closed,
        substate_tag(st) == 10 ==> st is CounterClosed,
        substate_tag(st) == 11 ==> st is ClosedPunished,
        substate_tag(st) == 12 ==> st is CollaborativeCloseOffered,
        substate_tag(st) == 13 ==> st is CollaborativelyClosed,
        substate_tag(st) == 14 ==> st is RenewAccepted,
        substate_tag(st) == 15 ==> st is RenewOffered,
        substate_tag(st) == 16 ==> st is RenewConfirmed,
{
}


/// Equal sub-tags name the same sub-state.
pub proof fn lemma_substate_tag_injective(a: SignedChannelStateType, b: SignedChannelStateType)
    requires
        substate_tag(a) == substate_tag(b),
    ensures
        a == b,
{
    lemma_substate_tag_cases(a);
    lemma_substate_tag_cases(b);
}

/// Reads a sub-state tag byte, advancing `pos` past it.
pub fn read_substate(buff: &Vec<u8>, pos: &mut usize) -> (r: Result<SignedChannelStateType, Error>)
    ensures
        r matches Ok(st) ==> *old(pos) + 1 <= buff@.len() && buff@[*old(pos) as int]
            == substate_tag(st) && *final(pos) == *old(pos) + 1,
        forall|st: SignedChannelStateType|
            *old(pos) + 1 <= buff@.len() && buff@[*old(pos) as int] == substate_tag(st) ==> r is Ok
                && r->Ok_0 == st && *final(pos) == *old(pos) + 1,
        r is Err ==> r matches Err(Error::StorageError(_)),
{
    let b = match read_u8(buff, pos) {
        Ok(v) => v,
        Err(e) => { return Err(e) },
    };
    let st = match b {
        1 => SignedChannelStateType::Established,
        2 => SignedChannelStateType::SettledOffered,
        3 => SignedChannelStateType::SettledReceived,
        4 => SignedChannelStateType::SettledAccepted,
        5 => SignedChannelStateType::SettledConfirmed,
        6 => SignedChannelStateType::Settled,
        7 => SignedChannelStateType::SettleClosing,
        8 => SignedChannelStateType::Closing,
        9 => SignedChannelStateType::Closed,
        10 => SignedChannelStateType::CounterClosed,
        11 => SignedChannelStateType::ClosedPunished,
        12 => SignedChannelStateType::CollaborativeCloseOffered,
        13 => SignedChannelStateType::CollaborativelyClosed,
        14 => SignedChannelStateType::RenewAccepted,
        15 => SignedChannelStateType::RenewOffered,
        16 => SignedChannelStateType::RenewConfirmed,
        _ => {
            proof {
                assert forall|st: SignedChannelStateType|
                    buff@[*old(pos) as int] == substate_tag(st) implies false by {
                    lemma_substate_tag_cases(st);
                }
            }
            return Err(Error::StorageError("Unknown prefix".to_owned()))
        },
    };
    proof {
        assert forall|st2: SignedChannelStateType|
            buff@[*old(pos) as int] == substate_tag(st2) implies st == st2 by {
            lemma_substate_tag_cases(st2);
        }
    }
    Ok(st)
}

/// Appends the payload of an offered channel record.
pub fn write_offered_channel(out: &mut Vec<u8>, o: &OfferedChannel)
    ensures
        final(out)@ == old(out)@ + enc_offered_channel(*o),
{
    write_id(out, &o.temporary_channel_id);
    write_id(out, &o.offered_contract_id);
    write_bytes(out, &o.counter_party);
    assert(out@ =~= old(out)@ + enc_offered_channel(*o));
}

/// Appends the payload of an accepted channel record.
pub fn write_accepted_channel(out: &mut Vec<u8>, a: &AcceptedChannel)
    ensures
        final(out)@ == old(out)@ + enc_accepted_channel(*a),
{
    write_id(out, &a.channel_id);
    write_id(out, &a.temporary_channel_id);
    write_id(out, &a.accepted_contract_id);
    assert(out@ =~= old(out)@ + enc_accepted_channel(*a));
}

/// Appends the payload of a signed channel record.
pub fn write_signed_channel(out: &mut Vec<u8>, s: &SignedChannel)
    ensures
        final(out)@ == old(out)@ + enc_signed_channel(*s),
{
    write_id(out, &s.channel_id);
    write_id(out, &s.temporary_channel_id);
    write_id(out, &s.contract_id);
    out.push(substate_prefix(&s.state));
    write_u64(out, s.update_idx);
    assert(out@ =~= old(out)@ + enc_signed_channel(*s));
}

/// Appends the payload of a failed-accept channel record.
pub fn write_failed_accept_channel(out: &mut Vec<u8>, f: &FailedAccept)
    ensures
        final(out)@ == old(out)@ + enc_failed_accept_channel(*f),
{
    write_id(out, &f.temporary_channel_id);
    write_bytes(out, &f.error_message);
    assert(out@ =~= old(out)@ + enc_failed_accept_channel(*f));
}

/// Appends the payload of a failed-sign channel record.
pub fn write_failed_sign_channel(out: &mut Vec<u8>, f: &FailedSign)
    ensures
        final(out)@ == old(out)@ + enc_failed_sign_channel(*f),
{
    write_id(out, &f.channel_id);
    write_bytes(out, &f.error_message);
    assert(out@ =~= old(out)@ + enc_failed_sign_channel(*f));
}

/// Encodes a channel as its tagged record: one tag byte, the sub-state
/// tag byte for the signed phase only, then the payload of its phase.
/// Encoding never fails.
pub fn serialize_channel(channel: &Channel) -> (r: Vec<u8>)
    ensures
        r@ == enc_channel(*channel),
{
    let mut out: Vec<u8> = Vec::new();
    match channel {
        Channel::Offered(o) => {
            out.push(100);
            write_offered_channel(&mut out, o);
        },
        Channel::Accepted(a) => {
            out.push(101);
            write_accepted_channel(&mut out, a);
        },
        Channel::Signed(s) => {
            out.push(102);
            out.push(substate_prefix(&s.state));
            write_signed_channel(&mut out, s);
        },
        Channel::FailedAccept(f) => {
            out.push(103);
            write_failed_accept_channel(&mut out, f);
        },
        Channel::FailedSign(f) => {
            out.push(104);
            write_failed_sign_channel(&mut out, f);
        },
    }
    assert(out@ =~= enc_channel(*channel));
    out
}

/// Splits a buffer range holding an offered channel payload into its
/// components.
proof fn lemma_offered_channel_split(b: Seq<u8>, p: int, s: OfferedChannel)
    requires
        0 <= p,
        p + enc_offered_channel(s).len() <= b.len(),
        b.subrange(p, p + enc_offered_channel(s).len()) == enc_offered_channel(s),
    ensures
        enc_offered_channel(s).len() == 72 + s.counter_party@.len(),
        b.subrange(p, p + 32) == s.temporary_channel_id@,
        b.subrange(p + 32, p + 64) == s.offered_contract_id@,
        b.subrange(p + 64, p + enc_offered_channel(s).len()) == enc_bytes(s.counter_party@),
{
    let ln = enc_offered_channel(s).len() as int;
    lemma_subrange_concat(b, p, p + 32, p + ln);
    assert(enc_offered_channel(s) =~= s.temporary_channel_id@ + (s.offered_contract_id@
        + enc_bytes(s.counter_party@)));
    lemma_concat_split(
        b.subrange(p, p + 32),
        b.subrange(p + 32, p + ln),
        s.temporary_channel_id@,
        s.offered_contract_id@ + enc_bytes(s.counter_party@),
    );
    lemma_subrange_concat(b, p + 32, p + 64, p + ln);
    lemma_concat_split(
        b.subrange(p + 32, p + 64),
        b.subrange(p + 64, p + ln),
        s.offered_contract_id@,
        enc_bytes(s.counter_party@),
    );
}

/// Splits a buffer range holding an accepted channel payload into its
/// components.
proof fn lemma_accepted_channel_split(b: Seq<u8>, p: int, s: AcceptedChannel)
    requires
        0 <= p,
        p + enc_accepted_channel(s).len() <= b.len(),
        b.subrange(p, p + enc_accepted_channel(s).len()) == enc_accepted_channel(s),
    ensures
        enc_accepted_channel(s).len() == 96,
        b.subrange(p, p + 32) == s.channel_id@,
        b.subrange(p + 32, p + 64) == s.temporary_channel_id@,
        b.subrange(p + 64, p + 96) == s.accepted_contract_id@,
{
    lemma_subrange_concat(b, p, p + 32, p + 96);
    assert(enc_accepted_channel(s) =~= s.channel_id@ + (s.temporary_channel_id@
        + s.accepted_contract_id@));
    lemma_concat_split(
        b.subrange(p, p + 32),
        b.subrange(p + 32, p + 96),
        s.channel_id@,
        s.temporary_channel_id@ + s.accepted_contract_id@,
    );
    lemma_subrange_concat(b, p + 32, p + 64, p + 96);
    lemma_concat_split(
        b.subrange(p + 32, p + 64),
        b.subrange(p + 64, p + 96),
        s.temporary_channel_id@,
        s.accepted_contract_id@,
    );
}

/// Splits a buffer range holding a signed channel payload into its
/// components.
proof fn lemma_signed_channel_split(b: Seq<u8>, p: int, s: SignedChannel)
    requires
        0 <= p,
        p + enc_signed_channel(s).len() <= b.len(),
        b.subrange(p, p + enc_signed_channel(s).len()) == enc_signed_channel(s),
    ensures
        enc_signed_channel(s).len() == 105,
        b.subrange(p, p + 32) == s.channel_id@,
        b.subrange(p + 32, p + 64) == s.temporary_channel_id@,
        b.subrange(p + 64, p + 96) == s.contract_id@,
        b[p + 96] == substate_tag(s.state),
        b.subrange(p + 97, p + 105) == enc_u64(s.update_idx),
{
    lemma_subrange_concat(b, p, p + 32, p + 105);
    assert(enc_signed_channel(s) =~= s.channel_id@ + (s.temporary_channel_id@ + (s.contract_id@
        + (seq![substate_tag(s.state)] + enc_u64(s.update_idx)))));
    lemma_concat_split(
        b.subrange(p, p + 32),
        b.subrange(p + 32, p + 105),
        s.channel_id@,
        s.temporary_channel_id@ + (s.contract_id@ + (seq![substate_tag(s.state)] + enc_u64(
            s.update_idx,
        ))),
    );
    lemma_subrange_concat(b, p + 32, p + 64, p + 105);
    lemma_concat_split(
        b.subrange(p + 32, p + 64),
        b.subrange(p + 64, p + 105),
        s.temporary_channel_id@,
        s.contract_id@ + (seq![substate_tag(s.state)] + enc_u64(s.update_idx)),
    );
    lemma_subrange_concat(b, p + 64, p + 96, p + 105);
    lemma_concat_split(
        b.subrange(p + 64, p + 96),
        b.subrange(p + 96, p + 105),
        s.contract_id@,
        seq![substate_tag(s.state)] + enc_u64(s.update_idx),
    );
    lemma_subrange_concat(b, p + 96, p + 97, p + 105);
    lemma_concat_split(
        b.subrange(p + 96, p + 97),
        b.subrange(p + 97, p + 105),
        seq![substate_tag(s.state)],
        enc_u64(s.update_idx),
    );
    assert(b[p + 96] == b.subrange(p + 96, p + 97)[0]);
}

/// Splits a buffer range holding a failed-accept channel payload into its
/// components.
proof fn lemma_failed_accept_channel_split(b: Seq<u8>, p: int, s: FailedAccept)
    requires
        0 <= p,
        p + enc_failed_accept_channel(s).len() <= b.len(),
        b.subrange(p, p + enc_failed_accept_channel(s).len()) == enc_failed_accept_channel(s),
    ensures
        enc_failed_accept_channel(s).len() == 40 + s.error_message@.len(),
        b.subrange(p, p + 32) == s.temporary_channel_id@,
        b.subrange(p + 32, p + enc_failed_accept_channel(s).len()) == enc_bytes(s.error_message@),
{
    let ln = enc_failed_accept_channel(s).len() as int;
    lemma_subrange_concat(b, p, p + 32, p + ln);
    lemma_concat_split(
        b.subrange(p, p + 32),
        b.subrange(p + 32, p + ln),
        s.temporary_channel_id@,
        enc_bytes(s.error_message@),
    );
}

/// Splits a buffer range holding a failed-sign channel payload into its
/// components.
proof fn lemma_failed_sign_channel_split(b: Seq<u8>, p: int, s: FailedSign)
    requires
        0 <= p,
        p + enc_failed_sign_channel(s).len() <= b.len(),
        b.subrange(p, p + enc_failed_sign_channel(s).len()) == enc_failed_sign_channel(s),
    ensures
        enc_failed_sign_channel(s).len() == 40 + s.error_message@.len(),
        b.subrange(p, p + 32) == s.channel_id@,
        b.subrange(p + 32, p + enc_failed_sign_channel(s).len()) == enc_bytes(s.error_message@),
{
    let ln = enc_failed_sign_channel(s).len() as int;
    lemma_subrange_concat(b, p, p + 32, p + ln);
    lemma_concat_split(
        b.subrange(p, p + 32),
        b.subrange(p + 32, p + ln),
        s.channel_id@,
        enc_bytes(s.error_message@),
    );
}

/// Reads an offered channel payload, advancing `pos` past it.
pub fn read_offered_channel(buff: &Vec<u8>, pos: &mut usize) -> (r: Result<OfferedChannel, Error>)
    ensures
        r matches Ok(o) ==> *old(pos) + enc_offered_channel(o).len() <= buff@.len()
            && buff@.subrange(*old(pos) as int, *old(pos) + enc_offered_channel(o).len())
            == enc_offered_channel(o) && *final(pos) == *old(pos) + enc_offered_channel(o).len(),
        forall|s: OfferedChannel|
            *old(pos) + enc_offered_channel(s).len() <= buff@.len() && buff@.subrange(
                *old(pos) as int,
                *old(pos) + enc_offered_channel(s).len(),
            ) == enc_offered_channel(s) ==> r is Ok && offered_channel_equiv(r->Ok_0, s) && *final(pos) == *old(pos) + enc_offered_channel(s).len(),
        r is Err ==> r matches Err(Error::StorageError(_)),
{
    let ghost p0 = *pos;
    let temporary_channel_id = match read_id(buff, pos) {
        Ok(v) => v,
        Err(e) => {
            proof {
                assert forall|s: OfferedChannel|
                    p0 + enc_offered_channel(s).len() <= buff@.len() && buff@.subrange(
                        p0 as int,
                        p0 + enc_offered_channel(s).len(),
                    ) == enc_offered_channel(s) implies false by {
                    lemma_offered_channel_split(buff@, p0 as int, s);
                }
            }
            return Err(e)
        },
    };
    let offered_contract_id = match read_id(buff, pos) {
        Ok(v) => v,
        Err(e) => {
            proof {
                assert forall|s: OfferedChannel|
                    p0 + enc_offered_channel(s).len() <= buff@.len() && buff@.subrange(
                        p0 as int,
                        p0 + enc_offered_channel(s).len(),
                    ) == enc_offered_channel(s) implies false by {
                    lemma_offered_channel_split(buff@, p0 as int, s);
                }
            }
            return Err(e)
        },
    };
    let counter_party = match read_bytes(buff, pos) {
        Ok(v) => v,
        Err(e) => {
            proof {
                assert forall|s: OfferedChannel|
                    p0 + enc_offered_channel(s).len() <= buff@.len() && buff@.subrange(
                        p0 as int,
                        p0 + enc_offered_channel(s).len(),
                    ) == enc_offered_channel(s) implies false by {
                    lemma_offered_channel_split(buff@, p0 as int, s);
                }
            }
            return Err(e)
        },
    };
    let o = OfferedChannel { temporary_channel_id, offered_contract_id, counter_party };
    proof {
        let p1 = p0 + 64;
        let p2 = p1 + enc_bytes(o.counter_party@).len();
        lemma_subrange_concat(buff@, p0 as int, p0 + 32, p1);
        lemma_subrange_concat(buff@, p0 as int, p1, p2);
        assert(buff@.subrange(p0 as int, p2) =~= enc_offered_channel(o));
        assert forall|s: OfferedChannel|
            p0 + enc_offered_channel(s).len() <= buff@.len() && buff@.subrange(
                p0 as int,
                p0 + enc_offered_channel(s).len(),
            ) == enc_offered_channel(s) implies offered_channel_equiv(o, s) && p2 == p0
            + enc_offered_channel(s).len() by {
            lemma_offered_channel_split(buff@, p0 as int, s);
        }
    }
    Ok(o)
}

/// Reads an accepted channel payload, advancing `pos` past it.
pub fn read_accepted_channel(buff: &Vec<u8>, pos: &mut usize) -> (r: Result<
    AcceptedChannel,
    Error,
>)
    ensures
        r matches Ok(a) ==> *old(pos) + enc_accepted_channel(a).len() <= buff@.len()
            && buff@.subrange(*old(pos) as int, *old(pos) + enc_accepted_channel(a).len())
            == enc_accepted_channel(a) && *final(pos) == *old(pos) + enc_accepted_channel(a).len(),
        forall|s: AcceptedChannel|
            *old(pos) + enc_accepted_channel(s).len() <= buff@.len() && buff@.subrange(
                *old(pos) as int,
                *old(pos) + enc_accepted_channel(s).len(),
            ) == enc_accepted_channel(s) ==> r is Ok && accepted_channel_equiv(r->Ok_0, s)
                && *final(pos) == *old(pos) + enc_accepted_channel(s).len(),
        r is Err ==> r matches Err(Error::StorageError(_)),
{
    let ghost p0 = *pos;
    let channel_id = match read_id(buff, pos) {
        Ok(v) => v,
        Err(e) => {
            proof {
                assert forall|s: AcceptedChannel|
                    p0 + enc_accepted_channel(s).len() <= buff@.len() && buff@.subrange(
                        p0 as int,
                        p0 + enc_accepted_channel(s).len(),
                    ) == enc_accepted_channel(s) implies false by {
                    lemma_accepted_channel_split(buff@, p0 as int, s);
                }
            }
            return Err(e)
        },
    };
    let temporary_channel_id = match read_id(buff, pos) {
        Ok(v) => v,
        Err(e) => {
            proof {
                assert forall|s: AcceptedChannel|
                    p0 + enc_accepted_channel(s).len() <= buff@.len() && buff@.subrange(
                        p0 as int,
                        p0 + enc_accepted_channel(s).len(),
                    ) == enc_accepted_channel(s) implies false by {
                    lemma_accepted_channel_split(buff@, p0 as int, s);
                }
            }
            return Err(e)
        },
    };
    let accepted_contract_id = match read_id(buff, pos) {
        Ok(v) => v,
        Err(e) => {
            proof {
                assert forall|s: AcceptedChannel|
                    p0 + enc_accepted_channel(s).len() <= buff@.len() && buff@.subrange(
                        p0 as int,
                        p0 + enc_accepted_channel(s).len(),
                    ) == enc_accepted_channel(s) implies false by {
                    lemma_accepted_channel_split(buff@, p0 as int, s);
                }
            }
            return Err(e)
        },
    };
    let a = AcceptedChannel { channel_id, temporary_channel_id, accepted_contract_id };
    proof {
        lemma_subrange_concat(buff@, p0 as int, p0 + 32, p0 + 64);
        lemma_subrange_concat(buff@, p0 as int, p0 + 64, p0 + 96);
        assert(buff@.subrange(p0 as int, p0 + 96) =~= enc_accepted_channel(a));
        assert forall|s: AcceptedChannel|
            p0 + enc_accepted_channel(s).len() <= buff@.len() && buff@.subrange(
                p0 as int,
                p0 + enc_accepted_channel(s).len(),
            ) == enc_accepted_channel(s) implies accepted_channel_equiv(a, s) && p0 + 96 == p0
            + enc_accepted_channel(s).len() by {
            lemma_accepted_channel_split(buff@, p0 as int, s);
        }
    }
    Ok(a)
}

/// Reads a signed channel payload, advancing `pos` past it.
pub fn read_signed_channel(buff: &Vec<u8>, pos: &mut usize) -> (r: Result<SignedChannel, Error>)
    ensures
        r matches Ok(sc) ==> *old(pos) + enc_signed_channel(sc).len() <= buff@.len()
            && buff@.subrange(*old(pos) as int, *old(pos) + enc_signed_channel(sc).len())
            == enc_signed_channel(sc) && *final(pos) == *old(pos) + enc_signed_channel(sc).len(),
        forall|s: SignedChannel|
            *old(pos) + enc_signed_channel(s).len() <= buff@.len() && buff@.subrange(
                *old(pos) as int,
                *old(pos) + enc_signed_channel(s).len(),
            ) == enc_signed_channel(s) ==> r is Ok && signed_channel_equiv(r->Ok_0, s) && *final(pos) == *old(pos) + enc_signed_channel(s).len(),
        r is Err ==> r matches Err(Error::StorageError(_)),
{
    let ghost p0 = *pos;
    let channel_id = match read_id(buff, pos) {
        Ok(v) => v,
        Err(e) => {
            proof {
                assert forall|s: SignedChannel|
                    p0 + enc_signed_channel(s).len() <= buff@.len() && buff@.subrange(
                        p0 as int,
                        p0 + enc_signed_channel(s).len(),
                    ) == enc_signed_channel(s) implies false by {
                    lemma_signed_channel_split(buff@, p0 as int, s);
                }
            }
            return Err(e)
        },
    };
    let temporary_channel_id = match read_id(buff, pos) {
        Ok(v) => v,
        Err(e) => {
            proof {
                assert forall|s: SignedChannel|
                    p0 + enc_signed_channel(s).len() <= buff@.len() && buff@.subrange(
                        p0 as int,
                        p0 + enc_signed_channel(s).len(),
                    ) == enc_signed_channel(s) implies false by {
                    lemma_signed_channel_split(buff@, p0 as int, s);
                }
            }
            return Err(e)
        },
    };
    let contract_id = match read_id(buff, pos) {
        Ok(v) => v,
        Err(e) => {
            proof {
                assert forall|s: SignedChannel|
                    p0 + enc_signed_channel(s).len() <= buff@.len() && buff@.subrange(
                        p0 as int,
                        p0 + enc_signed_channel(s).len(),
                    ) == enc_signed_channel(s) implies false by {
                    lemma_signed_channel_split(buff@, p0 as int, s);
                }
            }
            return Err(e)
        },
    };
    let state = match read_substate(buff, pos) {
        Ok(v) => v,
        Err(e) => {
            proof {
                assert forall|s: SignedChannel|
                    p0 + enc_signed_channel(s).len() <= buff@.len() && buff@.subrange(
                        p0 as int,
                        p0 + enc_signed_channel(s).len(),
                    ) == enc_signed_channel(s) implies false by {
                    lemma_signed_channel_split(buff@, p0 as int, s);
                }
            }
            return Err(e)
        },
    };
    let update_idx = match read_u64(buff, pos) {
        Ok(v) => v,
        Err(e) => {
            proof {
                assert forall|s: SignedChannel|
                    p0 + enc_signed_channel(s).len() <= buff@.len() && buff@.subrange(
                        p0 as int,
                        p0 + enc_signed_channel(s).len(),
                    ) == enc_signed_channel(s) implies false by {
                    lemma_signed_channel_split(buff@, p0 as int, s);
                }
            }
            return Err(e)
        },
    };
    let sc = SignedChannel { channel_id, temporary_channel_id, contract_id, state, update_idx };
    proof {
        lemma_u64_bytes_roundtrip(buff@.subrange(p0 + 97, p0 + 105));
        lemma_subrange_concat(buff@, p0 as int, p0 + 32, p0 + 64);
        lemma_subrange_concat(buff@, p0 as int, p0 + 64, p0 + 96);
        lemma_subrange_concat(buff@, p0 as int, p0 + 96, p0 + 97);
        lemma_subrange_concat(buff@, p0 as int, p0 + 97, p0 + 105);
        assert(buff@.subrange(p0 + 96, p0 + 97) =~= seq![substate_tag(sc.state)]);
        assert(buff@.subrange(p0 as int, p0 + 105) =~= enc_signed_channel(sc));
        assert forall|s: SignedChannel|
            p0 + enc_signed_channel(s).len() <= buff@.len() && buff@.subrange(
                p0 as int,
                p0 + enc_signed_channel(s).len(),
            ) == enc_signed_channel(s) implies signed_channel_equiv(sc, s) && p0 + 105 == p0
            + enc_signed_channel(s).len() by {
            lemma_signed_channel_split(buff@, p0 as int, s);
            lemma_u64_roundtrip(s.update_idx);
        }
    }
    Ok(sc)
}

/// Reads a failed-accept channel payload, advancing `pos` past it.
pub fn read_failed_accept_channel(buff: &Vec<u8>, pos: &mut usize) -> (r: Result<
    FailedAccept,
    Error,
>)
    ensures
        r matches Ok(f) ==> *old(pos) + enc_failed_accept_channel(f).len() <= buff@.len()
            && buff@.subrange(*old(pos) as int, *old(pos) + enc_failed_accept_channel(f).len())
            == enc_failed_accept_channel(f) && *final(pos) == *old(pos)
            + enc_failed_accept_channel(f).len(),
        forall|s: FailedAccept|
            *old(pos) + enc_failed_accept_channel(s).len() <= buff@.len() && buff@.subrange(
                *old(pos) as int,
                *old(pos) + enc_failed_accept_channel(s).len(),
            ) == enc_failed_accept_channel(s) ==> r is Ok && failed_accept_channel_equiv(
                r->Ok_0,
                s,
            ) && *final(pos) == *old(pos) + enc_failed_accept_channel(s).len(),
        r is Err ==> r matches Err(Error::StorageError(_)),
{
    let ghost p0 = *pos;
    let temporary_channel_id = match read_id(buff, pos) {
        Ok(v) => v,
        Err(e) => {
            proof {
                assert forall|s: FailedAccept|
                    p0 + enc_failed_accept_channel(s).len() <= buff@.len() && buff@.subrange(
                        p0 as int,
                        p0 + enc_failed_accept_channel(s).len(),
                    ) == enc_failed_accept_channel(s) implies false by {
                    lemma_failed_accept_channel_split(buff@, p0 as int, s);
                }
            }
            return Err(e)
        },
    };
    let error_message = match read_bytes(buff, pos) {
        Ok(v) => v,
        Err(e) => {
            proof {
                assert forall|s: FailedAccept|
                    p0 + enc_failed_accept_channel(s).len() <= buff@.len() && buff@.subrange(
                        p0 as int,
                        p0 + enc_failed_accept_channel(s).len(),
                    ) == enc_failed_accept_channel(s) implies false by {
                    lemma_failed_accept_channel_split(buff@, p0 as int, s);
                }
            }
            return Err(e)
        },
    };
    let f = FailedAccept { temporary_channel_id, error_message };
    proof {
        let p1 = p0 + 32;
        let p2 = p1 + enc_bytes(f.error_message@).len();
        lemma_subrange_concat(buff@, p0 as int, p1, p2);
        assert(buff@.subrange(p0 as int, p2) =~= enc_failed_accept_channel(f));
        assert forall|s: FailedAccept|
            p0 + enc_failed_accept_channel(s).len() <= buff@.len() && buff@.subrange(
                p0 as int,
                p0 + enc_failed_accept_channel(s).len(),
            ) == enc_failed_accept_channel(s) implies failed_accept_channel_equiv(f, s) && p2 == p0
            + enc_failed_accept_channel(s).len() by {
            lemma_failed_accept_channel_split(buff@, p0 as int, s);
        }
    }
    Ok(f)
}

/// Reads a failed-sign channel payload, advancing `pos` past it.
pub fn read_failed_sign_channel(buff: &Vec<u8>, pos: &mut usize) -> (r: Result<FailedSign, Error>)
    ensures
        r matches Ok(f) ==> *old(pos) + enc_failed_sign_channel(f).len() <= buff@.len()
            && buff@.subrange(*old(pos) as int, *old(pos) + enc_failed_sign_channel(f).len())
            == enc_failed_sign_channel(f) && *final(pos) == *old(pos) + enc_failed_sign_channel(
            f,
        ).len(),
        forall|s: FailedSign|
            *old(pos) + enc_failed_sign_channel(s).len() <= buff@.len() && buff@.subrange(
                *old(pos) as int,
                *old(pos) + enc_failed_sign_channel(s).len(),
            ) == enc_failed_sign_channel(s) ==> r is Ok && failed_sign_channel_equiv(r->Ok_0, s)
                && *final(pos) == *old(pos) + enc_failed_sign_channel(s).len(),
        r is Err ==> r matches Err(Error::StorageError(_)),
{
    let ghost p0 = *pos;
    let channel_id = match read_id(buff, pos) {
        Ok(v) => v,
        Err(e) => {
            proof {
                assert forall|s: FailedSign|
                    p0 + enc_failed_sign_channel(s).len() <= buff@.len() && buff@.subrange(
                        p0 as int,
                        p0 + enc_failed_sign_channel(s).len(),
                    ) == enc_failed_sign_channel(s) implies false by {
                    lemma_failed_sign_channel_split(buff@, p0 as int, s);
                }
            }
            return Err(e)
        },
    };
    let error_message = match read_bytes(buff, pos) {
        Ok(v) => v,
        Err(e) => {
            proof {
                assert forall|s: FailedSign|
                    p0 + enc_failed_sign_channel(s).len() <= buff@.len() && buff@.subrange(
                        p0 as int,
                        p0 + enc_failed_sign_channel(s).len(),
                    ) == enc_failed_sign_channel(s) implies false by {
                    lemma_failed_sign_channel_split(buff@, p0 as int, s);
                }
            }
            return Err(e)
        },
    };
    let f = FailedSign { channel_id, error_message };
    proof {
        let p1 = p0 + 32;
        let p2 = p1 + enc_bytes(f.error_message@).len();
        lemma_subrange_concat(buff@, p0 as int, p1, p2);
        assert(buff@.subrange(p0 as int, p2) =~= enc_failed_sign_channel(f));
        assert forall|s: FailedSign|
            p0 + enc_failed_sign_channel(s).len() <= buff@.len() && buff@.subrange(
                p0 as int,
                p0 + enc_failed_sign_channel(s).len(),
            ) == enc_failed_sign_channel(s) implies failed_sign_channel_equiv(f, s) && p2 == p0
            + enc_failed_sign_channel(s).len() by {
            lemma_failed_sign_channel_split(buff@, p0 as int, s);
        }
    }
    Ok(f)
}

/// A full channel record determines its tag bytes and payload bytes.
proof fn lemma_channel_payload_at(b: Seq<u8>, c: Channel)
    requires
        b == enc_channel(c),
    ensures
        c is Signed ==> b.len() == 2 + enc_signed_channel(c->Signed_0).len() && b[0] == 102 && b[1]
            == substate_tag(c->Signed_0.state) && b.subrange(2, b.len() as int)
            == enc_signed_channel(c->Signed_0),
        !(c is Signed) ==> b.len() == 1 + enc_channel_payload(c).len() && b[0] == channel_tag(c)
            && b.subrange(1, b.len() as int) == enc_channel_payload(c),
{
    if c is Signed {
        assert(b.subrange(2, b.len() as int) =~= enc_signed_channel(c->Signed_0));
    } else {
        assert(b.subrange(1, b.len() as int) =~= enc_channel_payload(c));
    }
}

/// The tag byte determines the phase of a channel record, and with it
/// which payload decoder applies.
proof fn lemma_channel_tag_cases(c: Channel)
    ensures
        channel_tag(c) == 100 ==> c is Offered && enc_channel_payload(c) == enc_offered_channel(
            c->Offered_0,
        ),
        channel_tag(c) == 101 ==> c is Accepted && enc_channel_payload(c) == enc_accepted_channel(
            c->Accepted_0,
        ),
        channel_tag(c) == 102 ==> c is Signed,
        channel_tag(c) == 103 ==> c is FailedAccept && enc_channel_payload(c)
            == enc_failed_accept_channel(c->FailedAccept_0),
        channel_tag(c) == 104 ==> c is FailedSign && enc_channel_payload(c)
            == enc_failed_sign_channel(c->FailedSign_0),
        100 <= channel_tag(c) <= 104,
        c is Signed ==> channel_tag(c) == 102,
{
}

/// Decodes a tagged channel record.  The record must be exactly its tag
/// byte (and, for the signed phase, the sub-state tag byte) followed by
/// the payload of that phase; an unknown tag, a malformed or trailing
/// payload, or a sub-tag that disagrees with the sub-state carried in the
/// payload yields a typed storage error.
pub fn deserialize_channel(buff: &Vec<u8>) -> (r: Result<Channel, Error>)
    ensures
        r matches Ok(c) ==> buff@ == enc_channel(c),
        forall|c: Channel| buff@ == enc_channel(c) ==> r is Ok && channel_equiv(r->Ok_0, c),
        r is Err ==> r matches Err(Error::StorageError(_)),
{
    if buff.len() == 0 {
        proof {
            assert forall|c: Channel| buff@ == enc_channel(c) implies false by {
                lemma_channel_payload_at(buff@, c);
            }
        }
        return Err(Error::StorageError("Unknown prefix".to_owned()));
    }
    let tag = buff[0];
    let mut pos: usize = 1;
    match tag {
        100 => {
            let x = match read_offered_channel(buff, &mut pos) {
                Ok(v) => v,
                Err(e) => {
                    proof {
                        assert forall|c: Channel| buff@ == enc_channel(c) implies false by {
                            lemma_channel_payload_at(buff@, c);
                            lemma_channel_tag_cases(c);
                        }
                    }
                    return Err(e)
                },
            };
            if pos != buff.len() {
                proof {
                    assert forall|c: Channel| buff@ == enc_channel(c) implies false by {
                        lemma_channel_payload_at(buff@, c);
                        lemma_channel_tag_cases(c);
                    }
                }
                return Err(Error::StorageError("record has trailing bytes".to_owned()));
            }
            proof {
                assert(buff@ =~= enc_channel(Channel::Offered(x)));
                assert forall|c: Channel|
                    buff@ == enc_channel(c) implies channel_equiv(Channel::Offered(x), c) by {
                    lemma_channel_payload_at(buff@, c);
                    lemma_channel_tag_cases(c);
                }
            }
            Ok(Channel::Offered(x))
        },
        101 => {
            let x = match read_accepted_channel(buff, &mut pos) {
                Ok(v) => v,
                Err(e) => {
                    proof {
                        assert forall|c: Channel| buff@ == enc_channel(c) implies false by {
                            lemma_channel_payload_at(buff@, c);
                            lemma_channel_tag_cases(c);
                        }
                    }
                    return Err(e)
                },
            };
            if pos != buff.len() {
                proof {
                    assert forall|c: Channel| buff@ == enc_channel(c) implies false by {
                        lemma_channel_payload_at(buff@, c);
                        lemma_channel_tag_cases(c);
                    }
                }
                return Err(Error::StorageError("record has trailing bytes".to_owned()));
            }
            proof {
                assert(buff@ =~= enc_channel(Channel::Accepted(x)));
                assert forall|c: Channel|
                    buff@ == enc_channel(c) implies channel_equiv(Channel::Accepted(x), c) by {
                    lemma_channel_payload_at(buff@, c);
                    lemma_channel_tag_cases(c);
                }
            }
            Ok(Channel::Accepted(x))
        },
        102 => {
            // The sub-tag byte: skipped here, checked below against the
            // sub-state the payload itself carries.
            let sub = match read_u8(buff, &mut pos) {
                Ok(v) => v,
                Err(e) => {
                    proof {
                        assert forall|c: Channel| buff@ == enc_channel(c) implies false by {
                            lemma_channel_payload_at(buff@, c);
                            lemma_channel_tag_cases(c);
                        }
                    }
                    return Err(e)
                },
            };
            let x = match read_signed_channel(buff, &mut pos) {
                Ok(v) => v,
                Err(e) => {
                    proof {
                        assert forall|c: Channel| buff@ == enc_channel(c) implies false by {
                            lemma_channel_payload_at(buff@, c);
                            lemma_channel_tag_cases(c);
                        }
                    }
                    return Err(e)
                },
            };
            if pos != buff.len() {
                proof {
                    assert forall|c: Channel| buff@ == enc_channel(c) implies false by {
                        lemma_channel_payload_at(buff@, c);
                        lemma_channel_tag_cases(c);
                    }
                }
                return Err(Error::StorageError("record has trailing bytes".to_owned()));
            }
            if sub != substate_prefix(&x.state) {
                proof {
                    assert forall|c: Channel| buff@ == enc_channel(c) implies false by {
                        lemma_channel_payload_at(buff@, c);
                        lemma_channel_tag_cases(c);
                    }
                }
                return Err(Error::StorageError("sub-state tag disagrees with payload".to_owned()));
            }
            proof {
                assert(buff@ =~= enc_channel(Channel::Signed(x)));
                assert forall|c: Channel|
                    buff@ == enc_channel(c) implies channel_equiv(Channel::Signed(x), c) by {
                    lemma_channel_payload_at(buff@, c);
                    lemma_channel_tag_cases(c);
                }
            }
            Ok(Channel::Signed(x))
        },
        103 => {
            let x = match read_failed_accept_channel(buff, &mut pos) {
                Ok(v) => v,
                Err(e) => {
                    proof {
                        assert forall|c: Channel| buff@ == enc_channel(c) implies false by {
                            lemma_channel_payload_at(buff@, c);
                            lemma_channel_tag_cases(c);
                        }
                    }
                    return Err(e)
                },
            };
            if pos != buff.len() {
                proof {
                    assert forall|c: Channel| buff@ == enc_channel(c) implies false by {
                        lemma_channel_payload_at(buff@, c);
                        lemma_channel_tag_cases(c);
                    }
                }
                return Err(Error::StorageError("record has trailing bytes".to_owned()));
            }
            proof {
                assert(buff@ =~= enc_channel(Channel::FailedAccept(x)));
                assert forall|c: Channel|
                    buff@ == enc_channel(c) implies channel_equiv(Channel::FailedAccept(x), c) by {
                    lemma_channel_payload_at(buff@, c);
                    lemma_channel_tag_cases(c);
                }
            }
            Ok(Channel::FailedAccept(x))
        },
        104 => {
            let x = match read_failed_sign_channel(buff, &mut pos) {
                Ok(v) => v,
                Err(e) => {
                    proof {
                        assert forall|c: Channel| buff@ == enc_channel(c) implies false by {
                            lemma_channel_payload_at(buff@, c);
                            lemma_channel_tag_cases(c);
                        }
                    }
                    return Err(e)
                },
            };
            if pos != buff.len() {
                proof {
                    assert forall|c: Channel| buff@ == enc_channel(c) implies false by {
                        lemma_channel_payload_at(buff@, c);
                        lemma_channel_tag_cases(c);
                    }
                }
                return Err(Error::StorageError("record has trailing bytes".to_owned()));
            }
            proof {
                assert(buff@ =~= enc_channel(Channel::FailedSign(x)));
                assert forall|c: Channel|
                    buff@ == enc_channel(c) implies channel_equiv(Channel::FailedSign(x), c) by {
                    lemma_channel_payload_at(buff@, c);
                    lemma_channel_tag_cases(c);
                }
            }
            Ok(Channel::FailedSign(x))
        },
        _ => {
            proof {
                assert forall|c: Channel| buff@ == enc_channel(c) implies false by {
                    lemma_channel_payload_at(buff@, c);
                    lemma_channel_tag_cases(c);
                }
            }
            Err(Error::StorageError("Unknown prefix".to_owned()))
        },
    }
}

} // verus!
