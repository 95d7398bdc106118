//! Domain types of the minter: principals, accounts, transaction identifiers,
//! outpoints, UTXOs, addresses, networks and timestamps.
//!
//! Identifiers are modelled as fixed-width byte blocks so that every value is
//! `Copy` and two values are equal exactly when their bytes are equal.  The
//! bookkeeping never looks inside an identifier; it only compares them.

use vstd::prelude::*;

verus! {

broadcast use vstd::array::group_array_axioms;

/// A principal identifier, held as its canonical bytes padded to the maximum
/// principal length.
#[derive(Clone, Copy, Debug)]
pub struct Principal {
    pub bytes: [u8; 29],
}

/// The identifier of a canister: the canonical bytes of its principal.
#[derive(Clone, Copy, Debug)]
pub struct CanisterId {
    pub bytes: [u8; 29],
}

/// A ledger account: an owner principal with an optional 32-byte subaccount.
#[derive(Clone, Copy, Debug)]
pub struct Account {
    pub owner: Principal,
    pub subaccount: Option<[u8; 32]>,
}

/// A Bitcoin transaction identifier: 32 bytes.
#[derive(Clone, Copy, Debug)]
pub struct Txid {
    pub bytes: [u8; 32],
}

/// A transaction output identifier: the transaction it belongs to and the
/// index of the output within that transaction.
#[derive(Clone, Copy, Debug)]
pub struct OutPoint {
    pub txid: Txid,
    pub vout: u32,
}

/// An unspent transaction output.  Its identity is the outpoint.
#[derive(Clone, Copy, Debug)]
pub struct Utxo {
    pub outpoint: OutPoint,
    pub value: u64,
    pub height: u32,
}

/// A Bitcoin address, by script kind, holding the script's hash or key bytes.
#[derive(Clone, Copy, Debug)]
pub enum BitcoinAddress {
    P2wpkhV0([u8; 20]),
    P2wshV0([u8; 32]),
    P2pkh([u8; 20]),
    P2sh([u8; 20]),
    P2trV1([u8; 32]),
}

/// The Bitcoin network a minter connects to.
#[derive(Clone, Copy, PartialEq, Eq, Structural, Debug)]
pub enum Network {
    Mainnet,
    Testnet,
    Regtest,
}

/// A point in time, in nanoseconds since the Unix epoch.
#[derive(Clone, Copy, PartialEq, Eq, Structural, Debug)]
pub struct Timestamp {
    pub nanos: u64,
}

/// A threshold-ECDSA public key with its chain code.
#[derive(Debug)]
pub struct EcdsaPublicKey {
    pub public_key: Vec<u8>,
    pub chain_code: Vec<u8>,
}

impl Timestamp {
    /// The elapsed time from `earlier` to `self`, or `None` if `self` is
    /// before `earlier`.
    pub fn checked_duration_since(&self, earlier: &Timestamp) -> (r: Option<u64>)
        ensures
            r == (if self.nanos >= earlier.nanos {
                Some((self.nanos - earlier.nanos) as u64)
            } else {
                None::<u64>
            }),
    {
        self.nanos.checked_sub(earlier.nanos)
    }

    /// This time advanced by `nanos`, clamped at the largest representable
    /// time.
    pub fn saturating_add_nanos(&self, nanos: u64) -> (r: Timestamp)
        ensures
            r.nanos == (if self.nanos + nanos <= u64::MAX {
                self.nanos + nanos
            } else {
                u64::MAX as int
            }),
    {
        Timestamp { nanos: self.nanos.saturating_add(nanos) }
    }

    /// The raw nanosecond count.
    pub fn as_nanos_since_unix_epoch(&self) -> (r: u64)
        ensures
            r == self.nanos,
    {
        self.nanos
    }
}

/// Compares two byte blocks for equality.
pub fn bytes_eq<const N: usize>(a: &[u8; N], b: &[u8; N]) -> (r: bool)
    ensures
        r == (*a == *b),
{
    let mut i: usize = 0;
    while i < N
        invariant
            0 <= i <= N,
            forall|j: int| 0 <= j < i ==> a@[j] == b@[j],
        decreases N - i,
    {
        if a[i] != b[i] {
            return false;
        }
        i += 1;
    }
    proof {
        assert(*a =~= *b);
    }
    true
}

impl PartialEq for Principal {
    fn eq(&self, other: &Principal) -> (r: bool) {
        bytes_eq(&self.bytes, &other.bytes)
    }
}

impl vstd::std_specs::cmp::PartialEqSpecImpl for Principal {
    open spec fn obeys_eq_spec() -> bool {
        true
    }

    open spec fn eq_spec(&self, other: &Principal) -> bool {
        *self == *other
    }
}

impl PartialEq for CanisterId {
    fn eq(&self, other: &CanisterId) -> (r: bool) {
        bytes_eq(&self.bytes, &other.bytes)
    }
}

impl vstd::std_specs::cmp::PartialEqSpecImpl for CanisterId {
    open spec fn obeys_eq_spec() -> bool {
        true
    }

    open spec fn eq_spec(&self, other: &CanisterId) -> bool {
        *self == *other
    }
}

impl PartialEq for Account {
    fn eq(&self, other: &Account) -> (r: bool) {
        if !(self.owner == other.owner) {
            return false;
        }
        match (&self.subaccount, &other.subaccount) {
            (None, None) => true,
            (Some(sa), Some(sb)) => bytes_eq(sa, sb),
            _ => false,
        }
    }
}

impl vstd::std_specs::cmp::PartialEqSpecImpl for Account {
    open spec fn obeys_eq_spec() -> bool {
        true
    }

    open spec fn eq_spec(&self, other: &Account) -> bool {
        *self == *other
    }
}

impl PartialEq for Txid {
    fn eq(&self, other: &Txid) -> (r: bool) {
        bytes_eq(&self.bytes, &other.bytes)
    }
}

impl vstd::std_specs::cmp::PartialEqSpecImpl for Txid {
    open spec fn obeys_eq_spec() -> bool {
        true
    }

    open spec fn eq_spec(&self, other: &Txid) -> bool {
        *self == *other
    }
}

impl PartialEq for OutPoint {
    fn eq(&self, other: &OutPoint) -> (r: bool) {
        self.txid == other.txid && self.vout == other.vout
    }
}

impl vstd::std_specs::cmp::PartialEqSpecImpl for OutPoint {
    open spec fn obeys_eq_spec() -> bool {
        true
    }

    open spec fn eq_spec(&self, other: &OutPoint) -> bool {
        *self == *other
    }
}

impl PartialEq for Utxo {
    fn eq(&self, other: &Utxo) -> (r: bool) {
        self.outpoint == other.outpoint && self.value == other.value
            && self.height == other.height
    }
}

impl vstd::std_specs::cmp::PartialEqSpecImpl for Utxo {
    open spec fn obeys_eq_spec() -> bool {
        true
    }

    open spec fn eq_spec(&self, other: &Utxo) -> bool {
        *self == *other
    }
}

impl PartialEq for BitcoinAddress {
    fn eq(&self, other: &BitcoinAddress) -> (r: bool) {
        match (self, other) {
            (BitcoinAddress::P2wpkhV0(x), BitcoinAddress::P2wpkhV0(y)) => bytes_eq(x, y),
            (BitcoinAddress::P2wshV0(x), BitcoinAddress::P2wshV0(y)) => bytes_eq(x, y),
            (BitcoinAddress::P2pkh(x), BitcoinAddress::P2pkh(y)) => bytes_eq(x, y),
            (BitcoinAddress::P2sh(x), BitcoinAddress::P2sh(y)) => bytes_eq(x, y),
            (BitcoinAddress::P2trV1(x), BitcoinAddress::P2trV1(y)) => bytes_eq(x, y),
            _ => false,
        }
    }
}

impl vstd::std_specs::cmp::PartialEqSpecImpl for BitcoinAddress {
    open spec fn obeys_eq_spec() -> bool {
        true
    }

    open spec fn eq_spec(&self, other: &BitcoinAddress) -> bool {
        *self == *other
    }
}

} // verus!
