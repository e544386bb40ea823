//! The contract lifecycle model: one record type per phase, the tagged
//! encoding of each, and the exact codec proofs.
//!
//! A contract is addressed by its temporary id until it reaches a committed
//! phase, after which it is addressed by its permanent id.  Tags 1 through 8
//! form a closed, stable enumeration; an unknown tag is rejected with a
//! typed error, never misparsed.

use vstd::prelude::*;

use crate::codec::enc_bytes;
use crate::codec::enc_u64;
use crate::codec::lemma_concat_split;
use crate::codec::lemma_subrange_concat;
use crate::codec::lemma_u64_bytes_roundtrip;
use crate::codec::lemma_u64_roundtrip;
use crate::codec::read_bytes;
use crate::codec::read_id;
use crate::codec::read_u64;
use crate::codec::write_bytes;
use crate::codec::write_id;
use crate::codec::write_u64;
use crate::error::Error;

verus! {

/// A permanent contract identifier, assigned once a contract is committed.
pub type ContractId = [u8; 32];

/// The identifier under which a contract is addressed while it is being
/// negotiated.
pub type TemporaryContractId = [u8; 32];

/// The negotiated terms of a contract.
#[derive(Debug, Clone, Copy, PartialEq, Eq, Structural)]
pub struct ContractTerms {
    /// The collateral the offering party locks up, in the smallest unit.
    pub offer_collateral: u64,
    /// The collateral the accepting party locks up, in the smallest unit.
    pub accept_collateral: u64,
    /// The fee rate agreed for the funding and settlement transactions.
    pub fee_rate_per_vb: u64,
}

/// A proposal sent to a counterparty, awaiting acceptance.
#[derive(Debug, Clone, PartialEq, Eq)]
pub struct OfferedContract {
    /// The temporary id under which the proposal is addressed.
    pub id: TemporaryContractId,
    /// The serialized public key of the counterparty.
    pub counter_party: Vec<u8>,
    /// The proposed terms.
    pub terms: ContractTerms,
}

/// An offer the counterparty accepted; the own signature is still pending.
#[derive(Debug, Clone, PartialEq, Eq)]
pub struct AcceptedContract {
    /// The offer this acceptance extends.
    pub offered_contract: OfferedContract,
    /// The permanent id assigned on acceptance.
    pub contract_id: ContractId,
    /// The counterparty's serialized adaptor signatures.
    pub accept_signatures: Vec<u8>,
}

/// A fully signed contract, ready for or already broadcast.
#[derive(Debug, Clone, PartialEq, Eq)]
pub struct SignedContract {
    /// The acceptance this signature completes.
    pub accepted_contract: AcceptedContract,
    /// The transaction id of the funding transaction.
    pub funding_txid: [u8; 32],
}

/// An oracle-settled contract that has been paid out.
#[derive(Debug, Clone, PartialEq, Eq)]
pub struct ClosedContract {
    /// The permanent id of the settled contract.
    pub contract_id: ContractId,
    /// The payout received on settlement, in the smallest unit.
    pub payout: u64,
}

/// An offer whose accept step failed.
#[derive(Debug, Clone, PartialEq, Eq)]
pub struct FailedAcceptContract {
    /// The offer whose acceptance failed.
    pub offered_contract: OfferedContract,
    /// The reason the accept step failed.
    pub error_message: Vec<u8>,
}

/// An accepted contract whose signing step failed.
#[derive(Debug, Clone, PartialEq, Eq)]
pub struct FailedSignContract {
    /// The acceptance whose signing failed.
    pub accepted_contract: AcceptedContract,
    /// The reason the signing step failed.
    pub error_message: Vec<u8>,
}

/// A contract in one of the phases of its lifecycle.
#[derive(Debug, Clone, PartialEq, Eq)]
pub enum Contract {
    /// A proposal sent, awaiting the counterparty.
    Offered(OfferedContract),
    /// The counterparty accepted; the own signature is pending.
    Accepted(AcceptedContract),
    /// Fully signed, ready for or already broadcast.
    Signed(SignedContract),
    /// An on-chain confirmation of the funding transaction was observed.
    Confirmed(SignedContract),
    /// Oracle-settled and paid out.
    Closed(ClosedContract),
    /// Timed out; the refund path was taken.
    Refunded(SignedContract),
    /// The accept step failed.
    FailedAccept(FailedAcceptContract),
    /// The signing step failed.
    FailedSign(FailedSignContract),
}

/// Two offered records that carry the same identifier, counterparty bytes
/// and terms.
pub open spec fn offered_equiv(a: OfferedContract, b: OfferedContract) -> bool {
    a.id@ == b.id@ && a.counter_party@ == b.counter_party@ && a.terms == b.terms
}

/// Two accepted records that carry the same offer, id and signature bytes.
pub open spec fn accepted_equiv(a: AcceptedContract, b: AcceptedContract) -> bool {
    offered_equiv(a.offered_contract, b.offered_contract) && a.contract_id@ == b.contract_id@
        && a.accept_signatures@ == b.accept_signatures@
}

/// Two signed records that carry the same acceptance and funding txid.
pub open spec fn signed_equiv(a: SignedContract, b: SignedContract) -> bool {
    accepted_equiv(a.accepted_contract, b.accepted_contract) && a.funding_txid@ == b.funding_txid@
}

/// Two closed records that carry the same id and payout.
pub open spec fn closed_equiv(a: ClosedContract, b: ClosedContract) -> bool {
    a.contract_id@ == b.contract_id@ && a.payout == b.payout
}

/// Two failed-accept records that carry the same offer and reason.
pub open spec fn failed_accept_equiv(a: FailedAcceptContract, b: FailedAcceptContract) -> bool {
    offered_equiv(a.offered_contract, b.offered_contract) && a.error_message@ == b.error_message@
}

/// Two failed-sign records that carry the same acceptance and reason.
pub open spec fn failed_sign_equiv(a: FailedSignContract, b: FailedSignContract) -> bool {
    accepted_equiv(a.accepted_contract, b.accepted_contract) && a.error_message@
        == b.error_message@
}

/// Two contracts in the same phase whose records carry the same values.
pub open spec fn contract_equiv(a: Contract, b: Contract) -> bool {
    match (a, b) {
        (Contract::Offered(x), Contract::Offered(y)) => offered_equiv(x, y),
        (Contract::Accepted(x), Contract::Accepted(y)) => accepted_equiv(x, y),
        (Contract::Signed(x), Contract::Signed(y)) => signed_equiv(x, y),
        (Contract::Confirmed(x), Contract::Confirmed(y)) => signed_equiv(x, y),
        (Contract::Closed(x), Contract::Closed(y)) => closed_equiv(x, y),
        (Contract::Refunded(x), Contract::Refunded(y)) => signed_equiv(x, y),
        (Contract::FailedAccept(x), Contract::FailedAccept(y)) => failed_accept_equiv(x, y),
        (Contract::FailedSign(x), Contract::FailedSign(y)) => failed_sign_equiv(x, y),
        _ => false,
    }
}

/// The stable one-byte tag of each contract phase.
pub open spec fn contract_tag(c: Contract) -> u8 {
    match c {
        Contract::Offered(_) => 1,
        Contract::Accepted(_) => 2,
        Contract::Signed(_) => 3,
        Contract::Confirmed(_) => 4,
        Contract::Closed(_) => 5,
        Contract::FailedAccept(_) => 6,
        Contract::FailedSign(_) => 7,
        Contract::Refunded(_) => 8,
    }
}

/// The encoding of the negotiated terms: three eight-byte integers.
pub open spec fn enc_terms(t: ContractTerms) -> Seq<u8> {
    enc_u64(t.offer_collateral) + enc_u64(t.accept_collateral) + enc_u64(t.fee_rate_per_vb)
}

/// The payload of an offered record.
pub open spec fn enc_offered(o: OfferedContract) -> Seq<u8> {
    o.id@ + enc_bytes(o.counter_party@) + enc_terms(o.terms)
}

/// The payload of an accepted record.
pub open spec fn enc_accepted(a: AcceptedContract) -> Seq<u8> {
    enc_offered(a.offered_contract) + a.contract_id@ + enc_bytes(a.accept_signatures@)
}

/// The payload of a signed, confirmed or refunded record.
pub open spec fn enc_signed(s: SignedContract) -> Seq<u8> {
    enc_accepted(s.accepted_contract) + s.funding_txid@
}

/// The payload of a closed record.
pub open spec fn enc_closed(c: ClosedContract) -> Seq<u8> {
    c.contract_id@ + enc_u64(c.payout)
}

/// The payload of a failed-accept record.
pub open spec fn enc_failed_accept(f: FailedAcceptContract) -> Seq<u8> {
    enc_offered(f.offered_contract) + enc_bytes(f.error_message@)
}

/// The payload of a failed-sign record.
pub open spec fn enc_failed_sign(f: FailedSignContract) -> Seq<u8> {
    enc_accepted(f.accepted_contract) + enc_bytes(f.error_message@)
}

/// The payload bytes of a contract record, without the leading tag.
pub open spec fn enc_contract_payload(c: Contract) -> Seq<u8> {
    match c {
        Contract::Offered(o) => enc_offered(o),
        Contract::Accepted(a) => enc_accepted(a),
        Contract::Signed(s) => enc_signed(s),
        Contract::Confirmed(s) => enc_signed(s),
        Contract::Closed(cl) => enc_closed(cl),
        Contract::Refunded(s) => enc_signed(s),
        Contract::FailedAccept(f) => enc_failed_accept(f),
        Contract::FailedSign(f) => enc_failed_sign(f),
    }
}

/// The full record of a contract: its tag byte, then its payload.
pub open spec fn enc_contract(c: Contract) -> Seq<u8> {
    seq![contract_tag(c)] + enc_contract_payload(c)
}

impl Contract {
    /// The id under which the record of this phase is keyed: the permanent
    /// id once one is assigned, the temporary id otherwise.
    pub open spec fn spec_id(self) -> Seq<u8> {
        match self {
            Contract::Offered(o) => o.id@,
            Contract::Accepted(a) => a.contract_id@,
            Contract::Signed(s) => s.accepted_contract.contract_id@,
            Contract::Confirmed(s) => s.accepted_contract.contract_id@,
            Contract::Closed(c) => c.contract_id@,
            Contract::Refunded(s) => s.accepted_contract.contract_id@,
            Contract::FailedAccept(f) => f.offered_contract.id@,
            Contract::FailedSign(f) => f.accepted_contract.contract_id@,
        }
    }

    /// The temporary id a not-yet-closed contract was negotiated under.
    pub open spec fn spec_temporary_id(self) -> Seq<u8> {
        match self {
            Contract::Offered(o) => o.id@,
            Contract::Accepted(a) => a.offered_contract.id@,
            Contract::Signed(s) => s.accepted_contract.offered_contract.id@,
            Contract::Confirmed(s) => s.accepted_contract.offered_contract.id@,
            Contract::Closed(c) => c.contract_id@,
            Contract::Refunded(s) => s.accepted_contract.offered_contract.id@,
            Contract::FailedAccept(f) => f.offered_contract.id@,
            Contract::FailedSign(f) => f.accepted_contract.offered_contract.id@,
        }
    }

    /// Returns the id under which the record of this phase is keyed.
    pub fn get_id(&self) -> (r: ContractId)
        ensures
            r@ == self.spec_id(),
    {
        match self {
            Contract::Offered(o) => o.id,
            Contract::Accepted(a) => a.contract_id,
            Contract::Signed(s) => s.accepted_contract.contract_id,
            Contract::Confirmed(s) => s.accepted_contract.contract_id,
            Contract::Closed(c) => c.contract_id,
            Contract::Refunded(s) => s.accepted_contract.contract_id,
            Contract::FailedAccept(f) => f.offered_contract.id,
            Contract::FailedSign(f) => f.accepted_contract.contract_id,
        }
    }

    /// Returns the temporary id the contract was negotiated under.  A
    /// closed contract carries none.
    pub fn get_temporary_id(&self) -> (r: TemporaryContractId)
        requires
            !(*self is Closed),
        ensures
            r@ == self.spec_temporary_id(),
    {
        match self {
            Contract::Offered(o) => o.id,
            Contract::Accepted(a) => a.offered_contract.id,
            Contract::Signed(s) => s.accepted_contract.offered_contract.id,
            Contract::Confirmed(s) => s.accepted_contract.offered_contract.id,
            Contract::Closed(c) => c.contract_id,
            Contract::Refunded(s) => s.accepted_contract.offered_contract.id,
            Contract::FailedAccept(f) => f.offered_contract.id,
            Contract::FailedSign(f) => f.accepted_contract.offered_contract.id,
        }
    }
}

/// Appends the encoding of the terms.
pub fn write_terms(out: &mut Vec<u8>, t: &ContractTerms)
    ensures
        final(out)@ == old(out)@ + enc_terms(*t),
{
    write_u64(out, t.offer_collateral);
    write_u64(out, t.accept_collateral);
    write_u64(out, t.fee_rate_per_vb);
    assert(out@ =~= old(out)@ + enc_terms(*t));
}

/// Appends the payload of an offered record.
pub fn write_offered(out: &mut Vec<u8>, o: &OfferedContract)
    ensures
        final(out)@ == old(out)@ + enc_offered(*o),
{
    write_id(out, &o.id);
    write_bytes(out, &o.counter_party);
    write_terms(out, &o.terms);
    assert(out@ =~= old(out)@ + enc_offered(*o));
}

/// Appends the payload of an accepted record.
pub fn write_accepted(out: &mut Vec<u8>, a: &AcceptedContract)
    ensures
        final(out)@ == old(out)@ + enc_accepted(*a),
{
    write_offered(out, &a.offered_contract);
    write_id(out, &a.contract_id);
    write_bytes(out, &a.accept_signatures);
    assert(out@ =~= old(out)@ + enc_accepted(*a));
}

/// Appends the payload of a signed, confirmed or refunded record.
pub fn write_signed(out: &mut Vec<u8>, s: &SignedContract)
    ensures
        final(out)@ == old(out)@ + enc_signed(*s),
{
    write_accepted(out, &s.accepted_contract);
    write_id(out, &s.funding_txid);
    assert(out@ =~= old(out)@ + enc_signed(*s));
}

/// Appends the payload of a closed record.
pub fn write_closed(out: &mut Vec<u8>, c: &ClosedContract)
    ensures
        final(out)@ == old(out)@ + enc_closed(*c),
{
    write_id(out, &c.contract_id);
    write_u64(out, c.payout);
    assert(out@ =~= old(out)@ + enc_closed(*c));
}

/// Appends the payload of a failed-accept record.
pub fn write_failed_accept(out: &mut Vec<u8>, f: &FailedAcceptContract)
    ensures
        final(out)@ == old(out)@ + enc_failed_accept(*f),
{
    write_offered(out, &f.offered_contract);
    write_bytes(out, &f.error_message);
    assert(out@ =~= old(out)@ + enc_failed_accept(*f));
}

/// Appends the payload of a failed-sign record.
pub fn write_failed_sign(out: &mut Vec<u8>, f: &FailedSignContract)
    ensures
        final(out)@ == old(out)@ + enc_failed_sign(*f),
{
    write_accepted(out, &f.accepted_contract);
    write_bytes(out, &f.error_message);
    assert(out@ =~= old(out)@ + enc_failed_sign(*f));
}

/// Encodes a contract as its tagged record: one tag byte, then the payload
/// of its phase.  Encoding never fails.
pub fn serialize_contract(contract: &Contract) -> (r: Vec<u8>)
    ensures
        r@ == enc_contract(*contract),
{
    let mut out: Vec<u8> = Vec::new();
    match contract {
        Contract::Offered(o) => {
            out.push(1);
            write_offered(&mut out, o);
        },
        Contract::Accepted(a) => {
            out.push(2);
            write_accepted(&mut out, a);
        },
        Contract::Signed(s) => {
            out.push(3);
            write_signed(&mut out, s);
        },
        Contract::Confirmed(s) => {
            out.push(4);
            write_signed(&mut out, s);
        },
        Contract::Closed(c) => {
            out.push(5);
            write_closed(&mut out, c);
        },
        Contract::FailedAccept(f) => {
            out.push(6);
            write_failed_accept(&mut out, f);
        },
        Contract::FailedSign(f) => {
            out.push(7);
            write_failed_sign(&mut out, f);
        },
        Contract::Refunded(s) => {
            out.push(8);
            write_signed(&mut out, s);
        },
    }
    assert(out@ =~= enc_contract(*contract));
    out
}

/// Splits a buffer range holding an offered payload into its components.
proof fn lemma_offered_split(b: Seq<u8>, p: int, s: OfferedContract)
    requires
        0 <= p,
        p + enc_offered(s).len() <= b.len(),
        b.subrange(p, p + enc_offered(s).len()) == enc_offered(s),
    ensures
        enc_offered(s).len() == 64 + s.counter_party@.len(),
        b.subrange(p, p + 32) == s.id@,
        b.subrange(p + 32, p + 32 + enc_bytes(s.counter_party@).len()) == enc_bytes(
            s.counter_party@,
        ),
        b.subrange(p + 32 + enc_bytes(s.counter_party@).len(), p + enc_offered(s).len())
            == enc_terms(s.terms),
{
    let l2 = enc_bytes(s.counter_party@).len() as int;
    let ln = enc_offered(s).len() as int;
    lemma_subrange_concat(b, p, p + 32, p + ln);
    assert(enc_offered(s) =~= s.id@ + (enc_bytes(s.counter_party@) + enc_terms(s.terms)));
    lemma_concat_split(
        b.subrange(p, p + 32),
        b.subrange(p + 32, p + ln),
        s.id@,
        enc_bytes(s.counter_party@) + enc_terms(s.terms),
    );
    lemma_subrange_concat(b, p + 32, p + 32 + l2, p + ln);
    lemma_concat_split(
        b.subrange(p + 32, p + 32 + l2),
        b.subrange(p + 32 + l2, p + ln),
        enc_bytes(s.counter_party@),
        enc_terms(s.terms),
    );
}

/// Splits a buffer range holding an accepted payload into its components.
proof fn lemma_accepted_split(b: Seq<u8>, p: int, s: AcceptedContract)
    requires
        0 <= p,
        p + enc_accepted(s).len() <= b.len(),
        b.subrange(p, p + enc_accepted(s).len()) == enc_accepted(s),
    ensures
        enc_accepted(s).len() == enc_offered(s.offered_contract).len() + 32 + enc_bytes(
            s.accept_signatures@,
        ).len(),
        b.subrange(p, p + enc_offered(s.offered_contract).len()) == enc_offered(
            s.offered_contract,
        ),
        b.subrange(
            p + enc_offered(s.offered_contract).len(),
            p + enc_offered(s.offered_contract).len() + 32,
        ) == s.contract_id@,
        b.subrange(p + enc_offered(s.offered_contract).len() + 32, p + enc_accepted(s).len())
            == enc_bytes(s.accept_signatures@),
{
    let l1 = enc_offered(s.offered_contract).len() as int;
    let ln = enc_accepted(s).len() as int;
    lemma_subrange_concat(b, p, p + l1, p + ln);
    assert(enc_accepted(s) =~= enc_offered(s.offered_contract) + (s.contract_id@ + enc_bytes(
        s.accept_signatures@,
    )));
    lemma_concat_split(
        b.subrange(p, p + l1),
        b.subrange(p + l1, p + ln),
        enc_offered(s.offered_contract),
        s.contract_id@ + enc_bytes(s.accept_signatures@),
    );
    lemma_subrange_concat(b, p + l1, p + l1 + 32, p + ln);
    lemma_concat_split(
        b.subrange(p + l1, p + l1 + 32),
        b.subrange(p + l1 + 32, p + ln),
        s.contract_id@,
        enc_bytes(s.accept_signatures@),
    );
}

/// Splits a buffer range holding a signed payload into its components.
proof fn lemma_signed_split(b: Seq<u8>, p: int, s: SignedContract)
    requires
        0 <= p,
        p + enc_signed(s).len() <= b.len(),
        b.subrange(p, p + enc_signed(s).len()) == enc_signed(s),
    ensures
        enc_signed(s).len() == enc_accepted(s.accepted_contract).len() + 32,
        b.subrange(p, p + enc_accepted(s.accepted_contract).len()) == enc_accepted(
            s.accepted_contract,
        ),
        b.subrange(p + enc_accepted(s.accepted_contract).len(), p + enc_signed(s).len())
            == s.funding_txid@,
{
    let l1 = enc_accepted(s.accepted_contract).len() as int;
    let ln = enc_signed(s).len() as int;
    lemma_subrange_concat(b, p, p + l1, p + ln);
    lemma_concat_split(
        b.subrange(p, p + l1),
        b.subrange(p + l1, p + ln),
        enc_accepted(s.accepted_contract),
        s.funding_txid@,
    );
}

/// Splits a buffer range holding a closed payload into its components.
proof fn lemma_closed_split(b: Seq<u8>, p: int, s: ClosedContract)
    requires
        0 <= p,
        p + enc_closed(s).len() <= b.len(),
        b.subrange(p, p + enc_closed(s).len()) == enc_closed(s),
    ensures
        enc_closed(s).len() == 40,
        b.subrange(p, p + 32) == s.contract_id@,
        b.subrange(p + 32, p + 40) == enc_u64(s.payout),
{
    lemma_subrange_concat(b, p, p + 32, p + 40);
    lemma_concat_split(
        b.subrange(p, p + 32),
        b.subrange(p + 32, p + 40),
        s.contract_id@,
        enc_u64(s.payout),
    );
}

/// Splits a buffer range holding a failed-accept payload into its
/// components.
proof fn lemma_failed_accept_split(b: Seq<u8>, p: int, s: FailedAcceptContract)
    requires
        0 <= p,
        p + enc_failed_accept(s).len() <= b.len(),
        b.subrange(p, p + enc_failed_accept(s).len()) == enc_failed_accept(s),
    ensures
        enc_failed_accept(s).len() == enc_offered(s.offered_contract).len() + enc_bytes(
            s.error_message@,
        ).len(),
        b.subrange(p, p + enc_offered(s.offered_contract).len()) == enc_offered(
            s.offered_contract,
        ),
        b.subrange(p + enc_offered(s.offered_contract).len(), p + enc_failed_accept(s).len())
            == enc_bytes(s.error_message@),
{
    let l1 = enc_offered(s.offered_contract).len() as int;
    let ln = enc_failed_accept(s).len() as int;
    lemma_subrange_concat(b, p, p + l1, p + ln);
    lemma_concat_split(
        b.subrange(p, p + l1),
        b.subrange(p + l1, p + ln),
        enc_offered(s.offered_contract),
        enc_bytes(s.error_message@),
    );
}

/// Splits a buffer range holding a failed-sign payload into its components.
proof fn lemma_failed_sign_split(b: Seq<u8>, p: int, s: FailedSignContract)
    requires
        0 <= p,
        p + enc_failed_sign(s).len() <= b.len(),
        b.subrange(p, p + enc_failed_sign(s).len()) == enc_failed_sign(s),
    ensures
        enc_failed_sign(s).len() == enc_accepted(s.accepted_contract).len() + enc_bytes(
            s.error_message@,
        ).len(),
        b.subrange(p, p + enc_accepted(s.accepted_contract).len()) == enc_accepted(
            s.accepted_contract,
        ),
        b.subrange(p + enc_accepted(s.accepted_contract).len(), p + enc_failed_sign(s).len())
            == enc_bytes(s.error_message@),
{
    let l1 = enc_accepted(s.accepted_contract).len() as int;
    let ln = enc_failed_sign(s).len() as int;
    lemma_subrange_concat(b, p, p + l1, p + ln);
    lemma_concat_split(
        b.subrange(p, p + l1),
        b.subrange(p + l1, p + ln),
        enc_accepted(s.accepted_contract),
        enc_bytes(s.error_message@),
    );
}

/// Reads the negotiated terms, advancing `pos` past them.
pub fn read_terms(buff: &Vec<u8>, pos: &mut usize) -> (r: Result<ContractTerms, Error>)
    ensures
        r matches Ok(t) ==> *old(pos) + enc_terms(t).len() <= buff@.len() && buff@.subrange(
            *old(pos) as int,
            *old(pos) + enc_terms(t).len(),
        ) == enc_terms(t) && *final(pos) == *old(pos) + enc_terms(t).len(),
        forall|t: ContractTerms|
            *old(pos) + enc_terms(t).len() <= buff@.len() && buff@.subrange(
                *old(pos) as int,
                *old(pos) + enc_terms(t).len(),
            ) == enc_terms(t) ==> r is Ok && r->Ok_0 == t && *final(pos) == *old(pos) + enc_terms(
                t,
            ).len(),
        r is Err ==> r matches Err(Error::StorageError(_)),
{
    let ghost p0 = *pos;
    let offer_collateral = match read_u64(buff, pos) {
        Ok(v) => v,
        Err(e) => { return Err(e) },
    };
    let accept_collateral = match read_u64(buff, pos) {
        Ok(v) => v,
        Err(e) => { return Err(e) },
    };
    let fee_rate_per_vb = match read_u64(buff, pos) {
        Ok(v) => v,
        Err(e) => { return Err(e) },
    };
    let t = ContractTerms { offer_collateral, accept_collateral, fee_rate_per_vb };
    proof {
        let s1 = buff@.subrange(p0 as int, p0 + 8);
        let s2 = buff@.subrange(p0 + 8, p0 + 16);
        let s3 = buff@.subrange(p0 + 16, p0 + 24);
        lemma_u64_bytes_roundtrip(s1);
        lemma_u64_bytes_roundtrip(s2);
        lemma_u64_bytes_roundtrip(s3);
        lemma_subrange_concat(buff@, p0 as int, p0 + 8, p0 + 24);
        lemma_subrange_concat(buff@, p0 + 8, p0 + 16, p0 + 24);
        assert(buff@.subrange(p0 as int, p0 + 24) =~= enc_terms(t));
        assert forall|t2: ContractTerms|
            p0 + enc_terms(t2).len() <= buff@.len() && buff@.subrange(
                p0 as int,
                p0 + enc_terms(t2).len(),
            ) == enc_terms(t2) implies t == t2 by {
            assert(enc_terms(t2) =~= enc_u64(t2.offer_collateral) + (enc_u64(t2.accept_collateral)
                + enc_u64(t2.fee_rate_per_vb)));
            lemma_concat_split(
                s1,
                buff@.subrange(p0 + 8, p0 + 24),
                enc_u64(t2.offer_collateral),
                enc_u64(t2.accept_collateral) + enc_u64(t2.fee_rate_per_vb),
            );
            lemma_concat_split(
                s2,
                s3,
                enc_u64(t2.accept_collateral),
                enc_u64(t2.fee_rate_per_vb),
            );
            lemma_u64_roundtrip(t2.offer_collateral);
            lemma_u64_roundtrip(t2.accept_collateral);
            lemma_u64_roundtrip(t2.fee_rate_per_vb);
        }
    }
    Ok(t)
}

/// Reads an offered payload, advancing `pos` past it.
pub fn read_offered(buff: &Vec<u8>, pos: &mut usize) -> (r: Result<OfferedContract, Error>)
    ensures
        r matches Ok(o) ==> *old(pos) + enc_offered(o).len() <= buff@.len() && buff@.subrange(
            *old(pos) as int,
            *old(pos) + enc_offered(o).len(),
        ) == enc_offered(o) && *final(pos) == *old(pos) + enc_offered(o).len(),
        forall|s: OfferedContract|
            *old(pos) + enc_offered(s).len() <= buff@.len() && buff@.subrange(
                *old(pos) as int,
                *old(pos) + enc_offered(s).len(),
            ) == enc_offered(s) ==> r is Ok && offered_equiv(r->Ok_0, s) && *final(pos) == *old(
                pos,
            ) + enc_offered(s).len(),
        r is Err ==> r matches Err(Error::StorageError(_)),
{
    let ghost p0 = *pos;
    let id = match read_id(buff, pos) {
        Ok(v) => v,
        Err(e) => {
            proof {
                assert forall|s: OfferedContract|
                    p0 + enc_offered(s).len() <= buff@.len() && buff@.subrange(
                        p0 as int,
                        p0 + enc_offered(s).len(),
                    ) == enc_offered(s) implies false by {
                    lemma_offered_split(buff@, p0 as int, s);
                }
            }
            return Err(e)
        },
    };
    let counter_party = match read_bytes(buff, pos) {
        Ok(v) => v,
        Err(e) => {
            proof {
                assert forall|s: OfferedContract|
                    p0 + enc_offered(s).len() <= buff@.len() && buff@.subrange(
                        p0 as int,
                        p0 + enc_offered(s).len(),
                    ) == enc_offered(s) implies false by {
                    lemma_offered_split(buff@, p0 as int, s);
                }
            }
            return Err(e)
        },
    };
    let terms = match read_terms(buff, pos) {
        Ok(v) => v,
        Err(e) => {
            proof {
                assert forall|s: OfferedContract|
                    p0 + enc_offered(s).len() <= buff@.len() && buff@.subrange(
                        p0 as int,
                        p0 + enc_offered(s).len(),
                    ) == enc_offered(s) implies false by {
                    lemma_offered_split(buff@, p0 as int, s);
                }
            }
            return Err(e)
        },
    };
    let o = OfferedContract { id, counter_party, terms };
    proof {
        let p1 = p0 + 32;
        let p2 = p1 + enc_bytes(o.counter_party@).len();
        let p3 = p2 + enc_terms(o.terms).len();
        lemma_subrange_concat(buff@, p0 as int, p1, p3);
        lemma_subrange_concat(buff@, p1, p2, p3);
        assert(buff@.subrange(p0 as int, p3) =~= enc_offered(o));
        assert forall|s: OfferedContract|
            p0 + enc_offered(s).len() <= buff@.len() && buff@.subrange(
                p0 as int,
                p0 + enc_offered(s).len(),
            ) == enc_offered(s) implies offered_equiv(o, s) && p3 == p0 + enc_offered(s).len() by {
            lemma_offered_split(buff@, p0 as int, s);
        }
    }
    Ok(o)
}

/// Reads an accepted payload, advancing `pos` past it.
pub fn read_accepted(buff: &Vec<u8>, pos: &mut usize) -> (r: Result<AcceptedContract, Error>)
    ensures
        r matches Ok(a) ==> *old(pos) + enc_accepted(a).len() <= buff@.len() && buff@.subrange(
            *old(pos) as int,
            *old(pos) + enc_accepted(a).len(),
        ) == enc_accepted(a) && *final(pos) == *old(pos) + enc_accepted(a).len(),
        forall|s: AcceptedContract|
            *old(pos) + enc_accepted(s).len() <= buff@.len() && buff@.subrange(
                *old(pos) as int,
                *old(pos) + enc_accepted(s).len(),
            ) == enc_accepted(s) ==> r is Ok && accepted_equiv(r->Ok_0, s) && *final(pos) == *old(
                pos,
            ) + enc_accepted(s).len(),
        r is Err ==> r matches Err(Error::StorageError(_)),
{
    let ghost p0 = *pos;
    let offered_contract = match read_offered(buff, pos) {
        Ok(v) => v,
        Err(e) => {
            proof {
                assert forall|s: AcceptedContract|
                    p0 + enc_accepted(s).len() <= buff@.len() && buff@.subrange(
                        p0 as int,
                        p0 + enc_accepted(s).len(),
                    ) == enc_accepted(s) implies false by {
                    lemma_accepted_split(buff@, p0 as int, s);
                }
            }
            return Err(e)
        },
    };
    let contract_id = match read_id(buff, pos) {
        Ok(v) => v,
        Err(e) => {
            proof {
                assert forall|s: AcceptedContract|
                    p0 + enc_accepted(s).len() <= buff@.len() && buff@.subrange(
                        p0 as int,
                        p0 + enc_accepted(s).len(),
                    ) == enc_accepted(s) implies false by {
                    lemma_accepted_split(buff@, p0 as int, s);
                }
            }
            return Err(e)
        },
    };
    let accept_signatures = match read_bytes(buff, pos) {
        Ok(v) => v,
        Err(e) => {
            proof {
                assert forall|s: AcceptedContract|
                    p0 + enc_accepted(s).len() <= buff@.len() && buff@.subrange(
                        p0 as int,
                        p0 + enc_accepted(s).len(),
                    ) == enc_accepted(s) implies false by {
                    lemma_accepted_split(buff@, p0 as int, s);
                }
            }
            return Err(e)
        },
    };
    let a = AcceptedContract { offered_contract, contract_id, accept_signatures };
    proof {
        let p1 = p0 + enc_offered(a.offered_contract).len();
        let p2 = p1 + 32;
        let p3 = p2 + enc_bytes(a.accept_signatures@).len();
        lemma_subrange_concat(buff@, p0 as int, p1, p3);
        lemma_subrange_concat(buff@, p1, p2, p3);
        assert(buff@.subrange(p0 as int, p3) =~= enc_accepted(a));
        assert forall|s: AcceptedContract|
            p0 + enc_accepted(s).len() <= buff@.len() && buff@.subrange(
                p0 as int,
                p0 + enc_accepted(s).len(),
            ) == enc_accepted(s) implies accepted_equiv(a, s) && p3 == p0 + enc_accepted(
            s,
        ).len() by {
            lemma_accepted_split(buff@, p0 as int, s);
        }
    }
    Ok(a)
}

/// Reads a signed payload, advancing `pos` past it.
pub fn read_signed(buff: &Vec<u8>, pos: &mut usize) -> (r: Result<SignedContract, Error>)
    ensures
        r matches Ok(sc) ==> *old(pos) + enc_signed(sc).len() <= buff@.len() && buff@.subrange(
            *old(pos) as int,
            *old(pos) + enc_signed(sc).len(),
        ) == enc_signed(sc) && *final(pos) == *old(pos) + enc_signed(sc).len(),
        forall|s: SignedContract|
            *old(pos) + enc_signed(s).len() <= buff@.len() && buff@.subrange(
                *old(pos) as int,
                *old(pos) + enc_signed(s).len(),
            ) == enc_signed(s) ==> r is Ok && signed_equiv(r->Ok_0, s) && *final(pos) == *old(pos)
                + enc_signed(s).len(),
        r is Err ==> r matches Err(Error::StorageError(_)),
{
    let ghost p0 = *pos;
    let accepted_contract = match read_accepted(buff, pos) {
        Ok(v) => v,
        Err(e) => {
            proof {
                assert forall|s: SignedContract|
                    p0 + enc_signed(s).len() <= buff@.len() && buff@.subrange(
                        p0 as int,
                        p0 + enc_signed(s).len(),
                    ) == enc_signed(s) implies false by {
                    lemma_signed_split(buff@, p0 as int, s);
                }
            }
            return Err(e)
        },
    };
    let funding_txid = match read_id(buff, pos) {
        Ok(v) => v,
        Err(e) => {
            proof {
                assert forall|s: SignedContract|
                    p0 + enc_signed(s).len() <= buff@.len() && buff@.subrange(
                        p0 as int,
                        p0 + enc_signed(s).len(),
                    ) == enc_signed(s) implies false by {
                    lemma_signed_split(buff@, p0 as int, s);
                }
            }
            return Err(e)
        },
    };
    let sc = SignedContract { accepted_contract, funding_txid };
    proof {
        let p1 = p0 + enc_accepted(sc.accepted_contract).len();
        let p2 = p1 + 32;
        lemma_subrange_concat(buff@, p0 as int, p1, p2);
        assert(buff@.subrange(p0 as int, p2) =~= enc_signed(sc));
        assert forall|s: SignedContract|
            p0 + enc_signed(s).len() <= buff@.len() && buff@.subrange(
                p0 as int,
                p0 + enc_signed(s).len(),
            ) == enc_signed(s) implies signed_equiv(sc, s) && p2 == p0 + enc_signed(s).len() by {
            lemma_signed_split(buff@, p0 as int, s);
        }
    }
    Ok(sc)
}

/// Reads a closed payload, advancing `pos` past it.
pub fn read_closed(buff: &Vec<u8>, pos: &mut usize) -> (r: Result<ClosedContract, Error>)
    ensures
        r matches Ok(c) ==> *old(pos) + enc_closed(c).len() <= buff@.len() && buff@.subrange(
            *old(pos) as int,
            *old(pos) + enc_closed(c).len(),
        ) == enc_closed(c) && *final(pos) == *old(pos) + enc_closed(c).len(),
        forall|s: ClosedContract|
            *old(pos) + enc_closed(s).len() <= buff@.len() && buff@.subrange(
                *old(pos) as int,
                *old(pos) + enc_closed(s).len(),
            ) == enc_closed(s) ==> r is Ok && closed_equiv(r->Ok_0, s) && *final(pos) == *old(pos)
                + enc_closed(s).len(),
        r is Err ==> r matches Err(Error::StorageError(_)),
{
    let ghost p0 = *pos;
    let contract_id = match read_id(buff, pos) {
        Ok(v) => v,
        Err(e) => {
            proof {
                assert forall|s: ClosedContract|
                    p0 + enc_closed(s).len() <= buff@.len() && buff@.subrange(
                        p0 as int,
                        p0 + enc_closed(s).len(),
                    ) == enc_closed(s) implies false by {
                    lemma_closed_split(buff@, p0 as int, s);
                }
            }
            return Err(e)
        },
    };
    let payout = match read_u64(buff, pos) {
        Ok(v) => v,
        Err(e) => {
            proof {
                assert forall|s: ClosedContract|
                    p0 + enc_closed(s).len() <= buff@.len() && buff@.subrange(
                        p0 as int,
                        p0 + enc_closed(s).len(),
                    ) == enc_closed(s) implies false by {
                    lemma_closed_split(buff@, p0 as int, s);
                }
            }
            return Err(e)
        },
    };
    let c = ClosedContract { contract_id, payout };
    proof {
        lemma_u64_bytes_roundtrip(buff@.subrange(p0 + 32, p0 + 40));
        lemma_subrange_concat(buff@, p0 as int, p0 + 32, p0 + 40);
        assert(buff@.subrange(p0 as int, p0 + 40) =~= enc_closed(c));
        assert forall|s: ClosedContract|
            p0 + enc_closed(s).len() <= buff@.len() && buff@.subrange(
                p0 as int,
                p0 + enc_closed(s).len(),
            ) == enc_closed(s) implies closed_equiv(c, s) && p0 + 40 == p0 + enc_closed(
            s,
        ).len() by {
            lemma_closed_split(buff@, p0 as int, s);
            lemma_u64_roundtrip(s.payout);
        }
    }
    Ok(c)
}

/// Reads a failed-accept payload, advancing `pos` past it.
pub fn read_failed_accept(buff: &Vec<u8>, pos: &mut usize) -> (r: Result<
    FailedAcceptContract,
    Error,
>)
    ensures
        r matches Ok(f) ==> *old(pos) + enc_failed_accept(f).len() <= buff@.len()
            && buff@.subrange(*old(pos) as int, *old(pos) + enc_failed_accept(f).len())
            == enc_failed_accept(f) && *final(pos) == *old(pos) + enc_failed_accept(f).len(),
        forall|s: FailedAcceptContract|
            *old(pos) + enc_failed_accept(s).len() <= buff@.len() && buff@.subrange(
                *old(pos) as int,
                *old(pos) + enc_failed_accept(s).len(),
            ) == enc_failed_accept(s) ==> r is Ok && failed_accept_equiv(r->Ok_0, s) && *final(pos)
                == *old(pos) + enc_failed_accept(s).len(),
        r is Err ==> r matches Err(Error::StorageError(_)),
{
    let ghost p0 = *pos;
    let offered_contract = match read_offered(buff, pos) {
        Ok(v) => v,
        Err(e) => {
            proof {
                assert forall|s: FailedAcceptContract|
                    p0 + enc_failed_accept(s).len() <= buff@.len() && buff@.subrange(
                        p0 as int,
                        p0 + enc_failed_accept(s).len(),
                    ) == enc_failed_accept(s) implies false by {
                    lemma_failed_accept_split(buff@, p0 as int, s);
                }
            }
            return Err(e)
        },
    };
    let error_message = match read_bytes(buff, pos) {
        Ok(v) => v,
        Err(e) => {
            proof {
                assert forall|s: FailedAcceptContract|
                    p0 + enc_failed_accept(s).len() <= buff@.len() && buff@.subrange(
                        p0 as int,
                        p0 + enc_failed_accept(s).len(),
                    ) == enc_failed_accept(s) implies false by {
                    lemma_failed_accept_split(buff@, p0 as int, s);
                }
            }
            return Err(e)
        },
    };
    let f = FailedAcceptContract { offered_contract, error_message };
    proof {
        let p1 = p0 + enc_offered(f.offered_contract).len();
        let p2 = p1 + enc_bytes(f.error_message@).len();
        lemma_subrange_concat(buff@, p0 as int, p1, p2);
        assert(buff@.subrange(p0 as int, p2) =~= enc_failed_accept(f));
        assert forall|s: FailedAcceptContract|
            p0 + enc_failed_accept(s).len() <= buff@.len() && buff@.subrange(
                p0 as int,
                p0 + enc_failed_accept(s).len(),
            ) == enc_failed_accept(s) implies failed_accept_equiv(f, s) && p2 == p0
            + enc_failed_accept(s).len() by {
            lemma_failed_accept_split(buff@, p0 as int, s);
        }
    }
    Ok(f)
}

/// Reads a failed-sign payload, advancing `pos` past it.
pub fn read_failed_sign(buff: &Vec<u8>, pos: &mut usize) -> (r: Result<FailedSignContract, Error>)
    ensures
        r matches Ok(f) ==> *old(pos) + enc_failed_sign(f).len() <= buff@.len() && buff@.subrange(
            *old(pos) as int,
            *old(pos) + enc_failed_sign(f).len(),
        ) == enc_failed_sign(f) && *final(pos) == *old(pos) + enc_failed_sign(f).len(),
        forall|s: FailedSignContract|
            *old(pos) + enc_failed_sign(s).len() <= buff@.len() && buff@.subrange(
                *old(pos) as int,
                *old(pos) + enc_failed_sign(s).len(),
            ) == enc_failed_sign(s) ==> r is Ok && failed_sign_equiv(r->Ok_0, s) && *final(pos)
                == *old(pos) + enc_failed_sign(s).len(),
        r is Err ==> r matches Err(Error::StorageError(_)),
{
    let ghost p0 = *pos;
    let accepted_contract = match read_accepted(buff, pos) {
        Ok(v) => v,
        Err(e) => {
            proof {
                assert forall|s: FailedSignContract|
                    p0 + enc_failed_sign(s).len() <= buff@.len() && buff@.subrange(
                        p0 as int,
                        p0 + enc_failed_sign(s).len(),
                    ) == enc_failed_sign(s) implies false by {
                    lemma_failed_sign_split(buff@, p0 as int, s);
                }
            }
            return Err(e)
        },
    };
    let error_message = match read_bytes(buff, pos) {
        Ok(v) => v,
        Err(e) => {
            proof {
                assert forall|s: FailedSignContract|
                    p0 + enc_failed_sign(s).len() <= buff@.len() && buff@.subrange(
                        p0 as int,
                        p0 + enc_failed_sign(s).len(),
                    ) == enc_failed_sign(s) implies false by {
                    lemma_failed_sign_split(buff@, p0 as int, s);
                }
            }
            return Err(e)
        },
    };
    let f = FailedSignContract { accepted_contract, error_message };
    proof {
        let p1 = p0 + enc_accepted(f.accepted_contract).len();
        let p2 = p1 + enc_bytes(f.error_message@).len();
        lemma_subrange_concat(buff@, p0 as int, p1, p2);
        assert(buff@.subrange(p0 as int, p2) =~= enc_failed_sign(f));
        assert forall|s: FailedSignContract|
            p0 + enc_failed_sign(s).len() <= buff@.len() && buff@.subrange(
                p0 as int,
                p0 + enc_failed_sign(s).len(),
            ) == enc_failed_sign(s) implies failed_sign_equiv(f, s) && p2 == p0 + enc_failed_sign(
            s,
        ).len() by {
            lemma_failed_sign_split(buff@, p0 as int, s);
        }
    }
    Ok(f)
}

/// A full contract record determines its tag byte and payload bytes.
proof fn lemma_contract_payload_at(b: Seq<u8>, c: Contract)
    requires
        b == enc_contract(c),
    ensures
        b.len() == 1 + enc_contract_payload(c).len(),
        b[0] == contract_tag(c),
        b.subrange(1, 1 + enc_contract_payload(c).len() as int) == enc_contract_payload(c),
{
    assert(b.len() == 1 + enc_contract_payload(c).len());
    assert(b[0] == contract_tag(c));
    assert(b.subrange(1, 1 + enc_contract_payload(c).len() as int) =~= enc_contract_payload(c));
}

/// The tag byte determines the phase of a record, and with it which payload
/// decoder applies.
proof fn lemma_contract_tag_cases(c: Contract)
    ensures
        contract_tag(c) == 1 ==> c is Offered && enc_contract_payload(c) == enc_offered(
            c->Offered_0,
        ),
        contract_tag(c) == 2 ==> c is Accepted && enc_contract_payload(c) == enc_accepted(
            c->Accepted_0,
        ),
        contract_tag(c) == 3 ==> c is Signed && enc_contract_payload(c) == enc_signed(
            c->Signed_0,
        ),
        contract_tag(c) == 4 ==> c is Confirmed && enc_contract_payload(c) == enc_signed(
            c->Confirmed_0,
        ),
        contract_tag(c) == 5 ==> c is Closed && enc_contract_payload(c) == enc_closed(
            c->Closed_0,
        ),
        contract_tag(c) == 6 ==> c is FailedAccept && enc_contract_payload(c) == enc_failed_accept(
            c->FailedAccept_0,
        ),
        contract_tag(c) == 7 ==> c is FailedSign && enc_contract_payload(c) == enc_failed_sign(
            c->FailedSign_0,
        ),
        contract_tag(c) == 8 ==> c is Refunded && enc_contract_payload(c) == enc_signed(
            c->Refunded_0,
        ),
        1 <= contract_tag(c) <= 8,
{
}

/// Decodes a tagged contract record.  The record must be exactly one tag
/// byte followed by the payload of that phase; an unknown tag or a
/// malformed or trailing payload yields a typed storage error.
pub fn deserialize_contract(buff: &Vec<u8>) -> (r: Result<Contract, Error>)
    ensures
        r matches Ok(c) ==> buff@ == enc_contract(c),
        forall|c: Contract|
            buff@ == enc_contract(c) ==> r is Ok && contract_equiv(r->Ok_0, c),
        r is Err ==> r matches Err(Error::StorageError(_)),
{
    if buff.len() == 0 {
        proof {
            assert forall|c: Contract| buff@ == enc_contract(c) implies false by {
                lemma_contract_payload_at(buff@, c);
            }
        }
        return Err(Error::StorageError("Unknown prefix".to_owned()));
    }
    let tag = buff[0];
    let mut pos: usize = 1;
    match tag {
        1 => {
            let x = match read_offered(buff, &mut pos) {
                Ok(v) => v,
                Err(e) => {
                    proof {
                        assert forall|c: Contract| buff@ == enc_contract(c) implies false by {
                            lemma_contract_payload_at(buff@, c);
                            lemma_contract_tag_cases(c);
                        }
                    }
                    return Err(e)
                },
            };
            if pos != buff.len() {
                proof {
                    assert forall|c: Contract| buff@ == enc_contract(c) implies false by {
                        lemma_contract_payload_at(buff@, c);
                        lemma_contract_tag_cases(c);
                    }
                }
                return Err(Error::StorageError("record has trailing bytes".to_owned()));
            }
            proof {
                assert(buff@ =~= enc_contract(Contract::Offered(x)));
                assert forall|c: Contract|
                    buff@ == enc_contract(c) implies contract_equiv(Contract::Offered(x), c) by {
                    lemma_contract_payload_at(buff@, c);
                    lemma_contract_tag_cases(c);
                }
            }
            Ok(Contract::Offered(x))
        },
        2 => {
            let x = match read_accepted(buff, &mut pos) {
                Ok(v) => v,
                Err(e) => {
                    proof {
                        assert forall|c: Contract| buff@ == enc_contract(c) implies false by {
                            lemma_contract_payload_at(buff@, c);
                            lemma_contract_tag_cases(c);
                        }
                    }
                    return Err(e)
                },
            };
            if pos != buff.len() {
                proof {
                    assert forall|c: Contract| buff@ == enc_contract(c) implies false by {
                        lemma_contract_payload_at(buff@, c);
                        lemma_contract_tag_cases(c);
                    }
                }
                return Err(Error::StorageError("record has trailing bytes".to_owned()));
            }
            proof {
                assert(buff@ =~= enc_contract(Contract::Accepted(x)));
                assert forall|c: Contract|
                    buff@ == enc_contract(c) implies contract_equiv(Contract::Accepted(x), c) by {
                    lemma_contract_payload_at(buff@, c);
                    lemma_contract_tag_cases(c);
                }
            }
            Ok(Contract::Accepted(x))
        },
        3 => {
            let x = match read_signed(buff, &mut pos) {
                Ok(v) => v,
                Err(e) => {
                    proof {
                        assert forall|c: Contract| buff@ == enc_contract(c) implies false by {
                            lemma_contract_payload_at(buff@, c);
                            lemma_contract_tag_cases(c);
                        }
                    }
                    return Err(e)
                },
            };
            if pos != buff.len() {
                proof {
                    assert forall|c: Contract| buff@ == enc_contract(c) implies false by {
                        lemma_contract_payload_at(buff@, c);
                        lemma_contract_tag_cases(c);
                    }
                }
                return Err(Error::StorageError("record has trailing bytes".to_owned()));
            }
            proof {
                assert(buff@ =~= enc_contract(Contract::Signed(x)));
                assert forall|c: Contract|
                    buff@ == enc_contract(c) implies contract_equiv(Contract::Signed(x), c) by {
                    lemma_contract_payload_at(buff@, c);
                    lemma_contract_tag_cases(c);
                }
            }
            Ok(Contract::Signed(x))
        },
        4 => {
            let x = match read_signed(buff, &mut pos) {
                Ok(v) => v,
                Err(e) => {
                    proof {
                        assert forall|c: Contract| buff@ == enc_contract(c) implies false by {
                            lemma_contract_payload_at(buff@, c);
                            lemma_contract_tag_cases(c);
                        }
                    }
                    return Err(e)
                },
            };
            if pos != buff.len() {
                proof {
                    assert forall|c: Contract| buff@ == enc_contract(c) implies false by {
                        lemma_contract_payload_at(buff@, c);
                        lemma_contract_tag_cases(c);
                    }
                }
                return Err(Error::StorageError("record has trailing bytes".to_owned()));
            }
            proof {
                assert(buff@ =~= enc_contract(Contract::Confirmed(x)));
                assert forall|c: Contract|
                    buff@ == enc_contract(c) implies contract_equiv(Contract::Confirmed(x), c) by {
                    lemma_contract_payload_at(buff@, c);
                    lemma_contract_tag_cases(c);
                }
            }
            Ok(Contract::Confirmed(x))
        },
        5 => {
            let x = match read_closed(buff, &mut pos) {
                Ok(v) => v,
                Err(e) => {
                    proof {
                        assert forall|c: Contract| buff@ == enc_contract(c) implies false by {
                            lemma_contract_payload_at(buff@, c);
                            lemma_contract_tag_cases(c);
                        }
                    }
                    return Err(e)
                },
            };
            if pos != buff.len() {
                proof {
                    assert forall|c: Contract| buff@ == enc_contract(c) implies false by {
                        lemma_contract_payload_at(buff@, c);
                        lemma_contract_tag_cases(c);
                    }
                }
                return Err(Error::StorageError("record has trailing bytes".to_owned()));
            }
            proof {
                assert(buff@ =~= enc_contract(Contract::Closed(x)));
                assert forall|c: Contract|
                    buff@ == enc_contract(c) implies contract_equiv(Contract::Closed(x), c) by {
                    lemma_contract_payload_at(buff@, c);
                    lemma_contract_tag_cases(c);
                }
            }
            Ok(Contract::Closed(x))
        },
        6 => {
            let x = match read_failed_accept(buff, &mut pos) {
                Ok(v) => v,
                Err(e) => {
                    proof {
                        assert forall|c: Contract| buff@ == enc_contract(c) implies false by {
                            lemma_contract_payload_at(buff@, c);
                            lemma_contract_tag_cases(c);
                        }
                    }
                    return Err(e)
                },
            };
            if pos != buff.len() {
                proof {
                    assert forall|c: Contract| buff@ == enc_contract(c) implies false by {
                        lemma_contract_payload_at(buff@, c);
                        lemma_contract_tag_cases(c);
                    }
                }
                return Err(Error::StorageError("record has trailing bytes".to_owned()));
            }
            proof {
                assert(buff@ =~= enc_contract(Contract::FailedAccept(x)));
                assert forall|c: Contract|
                    buff@ == enc_contract(c) implies contract_equiv(
                    Contract::FailedAccept(x),
                    c,
                ) by {
                    lemma_contract_payload_at(buff@, c);
                    lemma_contract_tag_cases(c);
                }
            }
            Ok(Contract::FailedAccept(x))
        },
        7 => {
            let x = match read_failed_sign(buff, &mut pos) {
                Ok(v) => v,
                Err(e) => {
                    proof {
                        assert forall|c: Contract| buff@ == enc_contract(c) implies false by {
                            lemma_contract_payload_at(buff@, c);
                            lemma_contract_tag_cases(c);
                        }
                    }
                    return Err(e)
                },
            };
            if pos != buff.len() {
                proof {
                    assert forall|c: Contract| buff@ == enc_contract(c) implies false by {
                        lemma_contract_payload_at(buff@, c);
                        lemma_contract_tag_cases(c);
                    }
                }
                return Err(Error::StorageError("record has trailing bytes".to_owned()));
            }
            proof {
                assert(buff@ =~= enc_contract(Contract::FailedSign(x)));
                assert forall|c: Contract|
                    buff@ == enc_contract(c) implies contract_equiv(Contract::FailedSign(x), c) by {
                    lemma_contract_payload_at(buff@, c);
                    lemma_contract_tag_cases(c);
                }
            }
            Ok(Contract::FailedSign(x))
        },
        8 => {
            let x = match read_signed(buff, &mut pos) {
                Ok(v) => v,
                Err(e) => {
                    proof {
                        assert forall|c: Contract| buff@ == enc_contract(c) implies false by {
                            lemma_contract_payload_at(buff@, c);
                            lemma_contract_tag_cases(c);
                        }
                    }
                    return Err(e)
                },
            };
            if pos != buff.len() {
                proof {
                    assert forall|c: Contract| buff@ == enc_contract(c) implies false by {
                        lemma_contract_payload_at(buff@, c);
                        lemma_contract_tag_cases(c);
                    }
                }
                return Err(Error::StorageError("record has trailing bytes".to_owned()));
            }
            proof {
                assert(buff@ =~= enc_contract(Contract::Refunded(x)));
                assert forall|c: Contract|
                    buff@ == enc_contract(c) implies contract_equiv(Contract::Refunded(x), c) by {
                    lemma_contract_payload_at(buff@, c);
                    lemma_contract_tag_cases(c);
                }
            }
            Ok(Contract::Refunded(x))
        },
        _ => {
            proof {
                assert forall|c: Contract| buff@ == enc_contract(c) implies false by {
                    lemma_contract_payload_at(buff@, c);
                    lemma_contract_tag_cases(c);
                }
            }
            Err(Error::StorageError("Unknown prefix".to_owned()))
        },
    }
}

} // verus!
