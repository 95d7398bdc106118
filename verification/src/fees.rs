//! Fee accounting helpers: the minimum-withdrawal formula and the cache of
//! UTXO query results.

use vstd::prelude::*;

verus! {

/// Satoshi reserved per request for a later fee bump.
pub const PER_REQUEST_RBF_BOUND: u64 = 22_100;

/// An upper bound on the vsize one request adds to a transaction.
pub const PER_REQUEST_VSIZE_BOUND: u64 = 221;

/// An upper bound on the minter fee charged per request.
pub const PER_REQUEST_MINTER_FEE_BOUND: u64 = 305;

/// A safety margin per request.
pub const PER_REQUEST_FEE_MARGIN: u64 = 1_000;

/// The minimum withdrawal that keeps one request economical at the given
/// median fee rate (millisatoshi per vbyte), never below the configured
/// minimum, with the check fee added on top.
pub open spec fn min_withdrawal_amount_spec(
    median_fee_rate_e3s: u64,
    retrieve_btc_min_amount: u64,
    check_fee: u64,
) -> u64 {
    let rate = median_fee_rate_e3s as int / 1000;
    let per_request = PER_REQUEST_RBF_BOUND + PER_REQUEST_VSIZE_BOUND * rate
        + PER_REQUEST_MINTER_FEE_BOUND + PER_REQUEST_FEE_MARGIN;
    let floor = if retrieve_btc_min_amount >= check_fee {
        retrieve_btc_min_amount - check_fee
    } else {
        0
    };
    let base = if per_request >= floor {
        per_request
    } else {
        floor
    };
    if base + check_fee <= u64::MAX {
        (base + check_fee) as u64
    } else {
        u64::MAX
    }
}

/// Computes the fee-based minimum withdrawal amount.
pub fn compute_min_withdrawal_amount(
    median_fee_rate_e3s: u64,
    retrieve_btc_min_amount: u64,
    check_fee: u64,
) -> (r: u64)
    ensures
        r == min_withdrawal_amount_spec(median_fee_rate_e3s, retrieve_btc_min_amount, check_fee),
{
    let rate = median_fee_rate_e3s / 1000;
    let per_request = PER_REQUEST_RBF_BOUND + PER_REQUEST_VSIZE_BOUND * rate
        + PER_REQUEST_MINTER_FEE_BOUND + PER_REQUEST_FEE_MARGIN;
    let floor = if retrieve_btc_min_amount >= check_fee {
        retrieve_btc_min_amount - check_fee
    } else {
        0
    };
    let base = if per_request >= floor {
        per_request
    } else {
        floor
    };
    match base.checked_add(check_fee) {
        Some(v) => v,
        None => u64::MAX,
    }
}

/// A time-to-live cache for Bitcoin UTXO queries.  The bookkeeping here only
/// carries the configured expiration; the query results themselves live with
/// the caller that performs the network calls.
#[derive(Clone, Copy, PartialEq, Eq, Structural, Debug)]
pub struct GetUtxosCache {
    /// How long a cached query result stays valid, in seconds.
    pub expiration_seconds: u64,
}

impl GetUtxosCache {
    /// A cache with the given expiration.
    pub fn new(expiration_seconds: u64) -> (r: GetUtxosCache)
        ensures
            r.expiration_seconds == expiration_seconds,
    {
        GetUtxosCache { expiration_seconds }
    }

    /// Changes the expiration.
    pub fn set_expiration(&mut self, expiration_seconds: u64)
        ensures
            final(self).expiration_seconds == expiration_seconds,
    {
        self.expiration_seconds = expiration_seconds;
    }
}

} // verus!

use crate::domain::Network;
use crate::state::CkBtcMinterState;

verus! {

/// The default fee used on regtest networks, in millisatoshi per vbyte.
pub const DEFAULT_REGTEST_FEE: u64 = 5_000;

/// The hard floor on the estimated fee per vbyte, by network, guarding
/// against spuriously low fee-percentile responses.
pub open spec fn minimum_fee_spec(network: Network) -> u64 {
    match network {
        Network::Mainnet => 1_500,
        Network::Testnet => 1_000,
        Network::Regtest => 0,
    }
}

impl CkBtcMinterState {
    /// The hard floor on the estimated fee per vbyte for this network.
    pub fn minimum_fee_per_vbyte(&self) -> (r: u64)
        ensures
            r == minimum_fee_spec(self.btc_network),
    {
        match &self.btc_network {
            Network::Mainnet => 1_500,
            Network::Testnet => 1_000,
            Network::Regtest => 0,
        }
    }

    /// The estimated median fee per vbyte: the recorded median raised to the
    /// network floor, or nothing while fewer than a hundred samples are
    /// known.  Regtest uses a fixed default.
    pub fn estimate_median_fee_per_vbyte(&self) -> (r: Option<u64>)
        ensures
            r == self.estimate_median_fee_spec(),
    {
        let median_fee: u64 = match &self.btc_network {
            Network::Mainnet | Network::Testnet => {
                if self.last_fee_per_vbyte.len() < 100 {
                    return None;
                }
                self.last_fee_per_vbyte[50]
            },
            Network::Regtest => DEFAULT_REGTEST_FEE,
        };
        let floor = self.minimum_fee_per_vbyte();
        Some(if median_fee >= floor {
            median_fee
        } else {
            floor
        })
    }

    /// The estimated median fee per vbyte.
    pub open spec fn estimate_median_fee_spec(self) -> Option<u64> {
        let floor = minimum_fee_spec(self.btc_network);
        match self.btc_network {
            Network::Regtest => Some(
                if DEFAULT_REGTEST_FEE >= floor {
                    DEFAULT_REGTEST_FEE
                } else {
                    floor
                },
            ),
            _ => {
                if self.last_fee_per_vbyte@.len() < 100 {
                    None
                } else {
                    Some(
                        if self.last_fee_per_vbyte@[50] >= floor {
                            self.last_fee_per_vbyte@[50]
                        } else {
                            floor
                        },
                    )
                }
            },
        }
    }

    /// Replaces the fee percentiles with a fresh sample of at least a
    /// hundred values, recomputes the fee-based minimum withdrawal from the
    /// median, and returns the effective median.  Fewer samples change
    /// nothing.
    pub fn update_median_fee_per_vbyte(&mut self, fees: Vec<u64>) -> (r: Option<u64>)
        requires
            old(self).inv(),
        ensures
            final(self).inv(),
            fees@.len() < 100 ==> (r is None && *final(self) == *old(self)),
            fees@.len() >= 100 ==> {
                let state_with_fees = (CkBtcMinterState {
                    last_fee_per_vbyte: final(self).last_fee_per_vbyte,
                    ..*old(self)
                });
                let median = state_with_fees.estimate_median_fee_spec()->0;
                &&& final(self).last_fee_per_vbyte@ == fees@
                &&& r == Some(median)
                &&& final(self).fee_based_retrieve_btc_min_amount == min_withdrawal_amount_spec(
                    median,
                    old(self).retrieve_btc_min_amount,
                    old(self).check_fee,
                )
                &&& *final(self) == (CkBtcMinterState {
                    last_fee_per_vbyte: final(self).last_fee_per_vbyte,
                    fee_based_retrieve_btc_min_amount: final(self).fee_based_retrieve_btc_min_amount,
                    ..*old(self)
                })
            },
    {
        if fees.len() < 100 {
            return None;
        }
        self.last_fee_per_vbyte = fees;
        let median_fee = match self.estimate_median_fee_per_vbyte() {
            Some(f) => f,
            None => {
                proof {
                    assert(false);
                }
                0
            },
        };
        let min_amount = self.retrieve_btc_min_amount;
        let fee = self.check_fee;
        self.fee_based_retrieve_btc_min_amount = compute_min_withdrawal_amount(
            median_fee,
            min_amount,
            fee,
        );
        Some(median_fee)
    }
}

} // verus!
