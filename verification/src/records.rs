//! Records moved through the withdrawal pipeline and the reimbursement
//! ledger, together with executable equality tests on them.

use vstd::prelude::*;

use crate::domain::{Account, BitcoinAddress, Principal, Txid, Utxo};

verus! {

/// A withdrawal request accepted by the minter and waiting to be served.
/// `block_index` is the index of the burn on the ledger and identifies the
/// request; it never changes once the request is created.
#[derive(Clone, Copy, PartialEq, Debug)]
pub struct RetrieveBtcRequest {
    /// The amount to send, in satoshi; transfer fees come out of it.
    pub amount: u64,
    /// The destination Bitcoin address.
    pub address: BitcoinAddress,
    /// The burn's ledger block index; the unique request identifier.
    pub block_index: u64,
    /// The time at which the minter accepted the request.
    pub received_at: u64,
    /// The provider that screened this request, if any.
    pub kyt_provider: Option<Principal>,
    /// Where to re-mint if the request cannot be served.
    pub reimbursement_account: Option<Account>,
}

/// A transaction output holding the minter's change.
#[derive(Clone, Copy, PartialEq, Eq, Structural, Debug)]
pub struct ChangeOutput {
    /// The index of the output in the transaction.
    pub vout: u32,
    /// The value of the output, in satoshi.
    pub value: u64,
}

/// A transaction sent to the Bitcoin network and not yet confirmed.
#[derive(PartialEq, Debug)]
pub struct SubmittedBtcTransaction {
    /// The withdrawal requests the transaction serves.
    pub requests: Vec<RetrieveBtcRequest>,
    /// The identifier of the unconfirmed transaction.
    pub txid: Txid,
    /// The UTXOs consumed by the transaction.
    pub used_utxos: Vec<Utxo>,
    /// The time at which the transaction was submitted.
    pub submitted_at: u64,
    /// The change output owned by the minter, if any.
    pub change_output: Option<ChangeOutput>,
    /// Fee per vbyte in millisatoshi, if known.
    pub fee_per_vbyte: Option<u64>,
}

/// The outcome of a finalized withdrawal request.
#[derive(Clone, Copy, PartialEq, Debug)]
pub enum FinalizedStatus {
    /// The amount was too low to cover the fees.
    AmountTooLow,
    /// The transaction serving the request got enough confirmations.
    Confirmed { txid: Txid },
}

/// A withdrawal request together with its outcome.
#[derive(Clone, Copy, PartialEq, Debug)]
pub struct FinalizedBtcRetrieval {
    /// The request that was finalized.
    pub request: RetrieveBtcRequest,
    /// How it ended.
    pub state: FinalizedStatus,
}

/// Where a request stands while a transaction for it is being prepared.
#[derive(Clone, Copy, PartialEq, Debug)]
pub enum InFlightStatus {
    /// Awaiting signatures for the transaction inputs.
    Signing,
    /// Awaiting the network's acceptance of the transaction.
    Sending { txid: Txid },
}

/// The externally visible status of a withdrawal request.
#[derive(Clone, Copy, PartialEq, Debug)]
pub enum RetrieveBtcStatus {
    /// The minter has no data for this request.
    Unknown,
    /// The request sits in the batch queue.
    Pending,
    /// A transaction for this request is being signed.
    Signing,
    /// A transaction for this request is being sent.
    Sending { txid: Txid },
    /// A transaction for this request awaits confirmations.
    Submitted { txid: Txid },
    /// The amount was too low; the request cannot be served.
    AmountTooLow,
    /// A transaction for this request is confirmed.
    Confirmed { txid: Txid },
}

/// The externally visible status of a withdrawal request, reimbursement
/// outcomes included.
#[derive(Clone, Copy, PartialEq, Debug)]
pub enum RetrieveBtcStatusV2 {
    /// The minter has no data for this request.
    Unknown,
    /// The request sits in the batch queue.
    Pending,
    /// A transaction for this request is being signed.
    Signing,
    /// A transaction for this request is being sent.
    Sending { txid: Txid },
    /// A transaction for this request awaits confirmations.
    Submitted { txid: Txid },
    /// The amount was too low; the request cannot be served.
    AmountTooLow,
    /// A transaction for this request is confirmed.
    Confirmed { txid: Txid },
    /// The request has been reimbursed.
    Reimbursed(ReimbursedDeposit),
    /// The minter will reimburse the request.
    WillReimburse(ReimburseDepositTask),
}

/// A request's burn block index paired with its status.
#[derive(Clone, Copy, PartialEq, Debug)]
pub struct BtcRetrievalStatusV2 {
    pub block_index: u64,
    pub status_v2: Option<RetrieveBtcStatusV2>,
}

impl RetrieveBtcStatus {
    /// The same status in the extended status space.
    pub fn into_v2(self) -> (r: RetrieveBtcStatusV2)
        ensures
            r == status_v2_of(self),
    {
        match self {
            RetrieveBtcStatus::Unknown => RetrieveBtcStatusV2::Unknown,
            RetrieveBtcStatus::Pending => RetrieveBtcStatusV2::Pending,
            RetrieveBtcStatus::Signing => RetrieveBtcStatusV2::Signing,
            RetrieveBtcStatus::Sending { txid } => RetrieveBtcStatusV2::Sending { txid },
            RetrieveBtcStatus::Submitted { txid } => RetrieveBtcStatusV2::Submitted { txid },
            RetrieveBtcStatus::AmountTooLow => RetrieveBtcStatusV2::AmountTooLow,
            RetrieveBtcStatus::Confirmed { txid } => RetrieveBtcStatusV2::Confirmed { txid },
        }
    }
}

/// The extended status corresponding to a plain status.
pub open spec fn status_v2_of(s: RetrieveBtcStatus) -> RetrieveBtcStatusV2 {
    match s {
        RetrieveBtcStatus::Unknown => RetrieveBtcStatusV2::Unknown,
        RetrieveBtcStatus::Pending => RetrieveBtcStatusV2::Pending,
        RetrieveBtcStatus::Signing => RetrieveBtcStatusV2::Signing,
        RetrieveBtcStatus::Sending { txid } => RetrieveBtcStatusV2::Sending { txid },
        RetrieveBtcStatus::Submitted { txid } => RetrieveBtcStatusV2::Submitted { txid },
        RetrieveBtcStatus::AmountTooLow => RetrieveBtcStatusV2::AmountTooLow,
        RetrieveBtcStatus::Confirmed { txid } => RetrieveBtcStatusV2::Confirmed { txid },
    }
}

/// The outcome of screening a UTXO.
#[derive(Clone, Copy, PartialEq, Eq, Structural, Debug)]
pub enum UtxoCheckStatus {
    /// Screening revealed no problems.
    Clean,
    /// The UTXO is tainted.
    Tainted,
    /// The UTXO is clean but the mint's outcome is unknown.
    CleanButMintUnknown,
}

/// Data kept for a screened UTXO.  The uuid and provider fields remain for
/// compatibility with old records and are absent on new writes.
#[derive(PartialEq, Debug)]
pub struct CheckedUtxo {
    pub status: UtxoCheckStatus,
    pub uuid: Option<String>,
    pub kyt_provider: Option<Principal>,
}

/// Signals that a fee distribution asked for more than was owed; holds the
/// shortfall.
#[derive(Clone, Copy, PartialEq, Debug)]
pub struct Overdraft(pub u64);

/// Why a deposit is being reimbursed.
#[derive(Clone, Copy, PartialEq, Debug)]
pub enum ReimbursementReason {
    /// The destination was flagged by the screener; the screening fee is owed
    /// to the provider.
    TaintedDestination { kyt_provider: Principal, kyt_fee: u64 },
    /// A call failed and the deposit must be returned.
    CallFailed,
}

/// A reimbursement that is still to be executed.
#[derive(Clone, Copy, PartialEq, Debug)]
pub struct ReimburseDepositTask {
    pub account: Account,
    pub amount: u64,
    pub reason: ReimbursementReason,
}

/// A reimbursement that has been executed, with the mint that paid it.
#[derive(Clone, Copy, PartialEq, Debug)]
pub struct ReimbursedDeposit {
    pub account: Account,
    pub amount: u64,
    pub reason: ReimbursementReason,
    pub mint_block_index: u64,
}

/// Why a UTXO is excluded from minting.
#[derive(Clone, Copy, PartialEq, Eq, Structural, Debug)]
pub enum SuspendedReason {
    /// The value is too small to pay the check fee.
    ValueTooSmall,
    /// The screener flagged the UTXO.
    Quarantined,
}

/// Compares two withdrawal requests for equality.
pub fn request_eq(a: &RetrieveBtcRequest, b: &RetrieveBtcRequest) -> (r: bool)
    ensures
        r == (a == b),
{
    if a.amount != b.amount || a.block_index != b.block_index || a.received_at != b.received_at {
        return false;
    }
    if !(a.address == b.address) {
        return false;
    }
    let providers_match = match (&a.kyt_provider, &b.kyt_provider) {
        (None, None) => true,
        (Some(x), Some(y)) => *x == *y,
        _ => false,
    };
    if !providers_match {
        return false;
    }
    match (&a.reimbursement_account, &b.reimbursement_account) {
        (None, None) => true,
        (Some(x), Some(y)) => *x == *y,
        _ => false,
    }
}

/// Compares two request sequences for equality.
pub fn request_vec_eq(a: &Vec<RetrieveBtcRequest>, b: &Vec<RetrieveBtcRequest>) -> (r: bool)
    ensures
        r == (a@ == b@),
{
    if a.len() != b.len() {
        return false;
    }
    let mut i: usize = 0;
    while i < a.len()
        invariant
            0 <= i <= a@.len(),
            a@.len() == b@.len(),
            forall|j: int| 0 <= j < i ==> a@[j] == b@[j],
        decreases a@.len() - i,
    {
        if !request_eq(&a[i], &b[i]) {
            return false;
        }
        i += 1;
    }
    proof {
        assert(a@ =~= b@);
    }
    true
}

/// Compares two UTXO sequences for equality.
pub fn utxo_vec_eq(a: &Vec<Utxo>, b: &Vec<Utxo>) -> (r: bool)
    ensures
        r == (a@ == b@),
{
    if a.len() != b.len() {
        return false;
    }
    let mut i: usize = 0;
    while i < a.len()
        invariant
            0 <= i <= a@.len(),
            a@.len() == b@.len(),
            forall|j: int| 0 <= j < i ==> a@[j] == b@[j],
        decreases a@.len() - i,
    {
        if !(a[i] == b[i]) {
            return false;
        }
        i += 1;
    }
    proof {
        assert(a@ =~= b@);
    }
    true
}

/// Compares two block-index sequences for equality.
pub fn u64_vec_eq(a: &Vec<u64>, b: &Vec<u64>) -> (r: bool)
    ensures
        r == (a@ == b@),
{
    if a.len() != b.len() {
        return false;
    }
    let mut i: usize = 0;
    while i < a.len()
        invariant
            0 <= i <= a@.len(),
            a@.len() == b@.len(),
            forall|j: int| 0 <= j < i ==> a@[j] == b@[j],
        decreases a@.len() - i,
    {
        if a[i] != b[i] {
            return false;
        }
        i += 1;
    }
    proof {
        assert(a@ =~= b@);
    }
    true
}

/// Compares two in-flight statuses for equality.
pub fn in_flight_status_eq(a: &InFlightStatus, b: &InFlightStatus) -> (r: bool)
    ensures
        r == (a == b),
{
    match (a, b) {
        (InFlightStatus::Signing, InFlightStatus::Signing) => true,
        (InFlightStatus::Sending { txid: x }, InFlightStatus::Sending { txid: y }) => *x == *y,
        _ => false,
    }
}

/// Compares two finalized outcomes for equality.
pub fn finalized_status_eq(a: &FinalizedStatus, b: &FinalizedStatus) -> (r: bool)
    ensures
        r == (a == b),
{
    match (a, b) {
        (FinalizedStatus::AmountTooLow, FinalizedStatus::AmountTooLow) => true,
        (FinalizedStatus::Confirmed { txid: x }, FinalizedStatus::Confirmed { txid: y }) => *x == *y,
        _ => false,
    }
}

/// Compares two finalized retrievals for equality.
pub fn finalized_retrieval_eq(a: &FinalizedBtcRetrieval, b: &FinalizedBtcRetrieval) -> (r: bool)
    ensures
        r == (a == b),
{
    request_eq(&a.request, &b.request) && finalized_status_eq(&a.state, &b.state)
}

/// Compares two reimbursement reasons for equality.
pub fn reason_eq(a: &ReimbursementReason, b: &ReimbursementReason) -> (r: bool)
    ensures
        r == (a == b),
{
    match (a, b) {
        (ReimbursementReason::CallFailed, ReimbursementReason::CallFailed) => true,
        (
            ReimbursementReason::TaintedDestination { kyt_provider: px, kyt_fee: fx },
            ReimbursementReason::TaintedDestination { kyt_provider: py, kyt_fee: fy },
        ) => *px == *py && fx == fy,
        _ => false,
    }
}

/// Compares two reimbursement tasks for equality.
pub fn reimburse_task_eq(a: &ReimburseDepositTask, b: &ReimburseDepositTask) -> (r: bool)
    ensures
        r == (a == b),
{
    a.account == b.account && a.amount == b.amount && reason_eq(&a.reason, &b.reason)
}

/// Compares two executed reimbursements for equality.
pub fn reimbursed_deposit_eq(a: &ReimbursedDeposit, b: &ReimbursedDeposit) -> (r: bool)
    ensures
        r == (a == b),
{
    a.account == b.account && a.amount == b.amount && reason_eq(&a.reason, &b.reason)
        && a.mint_block_index == b.mint_block_index
}

/// Whether two submitted transactions carry the same data.
pub open spec fn submitted_tx_eq_spec(a: SubmittedBtcTransaction, b: SubmittedBtcTransaction) -> bool {
    &&& a.requests@ == b.requests@
    &&& a.txid == b.txid
    &&& a.used_utxos@ == b.used_utxos@
    &&& a.submitted_at == b.submitted_at
    &&& a.change_output == b.change_output
    &&& a.fee_per_vbyte == b.fee_per_vbyte
}

/// Compares two submitted transactions for equality of their data.
pub fn submitted_tx_eq(a: &SubmittedBtcTransaction, b: &SubmittedBtcTransaction) -> (r: bool)
    ensures
        r == submitted_tx_eq_spec(*a, *b),
{
    if a.submitted_at != b.submitted_at {
        return false;
    }
    if !(a.txid == b.txid) {
        return false;
    }
    let change_matches = match (&a.change_output, &b.change_output) {
        (None, None) => true,
        (Some(x), Some(y)) => x == y,
        _ => false,
    };
    if !change_matches {
        return false;
    }
    let fee_matches = match (&a.fee_per_vbyte, &b.fee_per_vbyte) {
        (None, None) => true,
        (Some(x), Some(y)) => x == y,
        _ => false,
    };
    if !fee_matches {
        return false;
    }
    request_vec_eq(&a.requests, &b.requests) && utxo_vec_eq(&a.used_utxos, &b.used_utxos)
}

/// Whether two screening records carry the same data.
pub open spec fn checked_utxo_eq_spec(a: CheckedUtxo, b: CheckedUtxo) -> bool {
    &&& a.status == b.status
    &&& match (a.uuid, b.uuid) {
        (Option::None, Option::None) => true,
        (Option::Some(x), Option::Some(y)) => x@ == y@,
        _ => false,
    }
    &&& a.kyt_provider == b.kyt_provider
}

/// Compares two screening records for equality of their data.
pub fn checked_utxo_eq(a: &CheckedUtxo, b: &CheckedUtxo) -> (r: bool)
    ensures
        r == checked_utxo_eq_spec(*a, *b),
{
    if a.status != b.status {
        return false;
    }
    let uuid_matches = match (&a.uuid, &b.uuid) {
        (None, None) => true,
        (Some(x), Some(y)) => *x == *y,
        _ => false,
    };
    if !uuid_matches {
        return false;
    }
    match (&a.kyt_provider, &b.kyt_provider) {
        (None, None) => true,
        (Some(x), Some(y)) => *x == *y,
        _ => false,
    }
}

} // verus!
