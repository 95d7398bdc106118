//! The minter's operating mode and the access decisions it implies.

use vstd::prelude::*;

use crate::domain::Principal;

verus! {

/// Controls which operations the minter performs for whom.
#[derive(PartialEq, Debug)]
pub enum Mode {
    /// The state is read-only.
    ReadOnly,
    /// Only the listed principals may deposit or withdraw.
    RestrictedTo(Vec<Principal>),
    /// Only the listed principals may deposit; withdrawals are open.
    DepositsRestrictedTo(Vec<Principal>),
    /// No restrictions.
    GeneralAvailability,
}

/// Whether a principal may convert BTC to wrapped tokens under this mode.
pub open spec fn deposit_allowed(m: Mode, p: Principal) -> bool {
    match m {
        Mode::GeneralAvailability => true,
        Mode::ReadOnly => false,
        Mode::RestrictedTo(allow_list) => allow_list@.contains(p),
        Mode::DepositsRestrictedTo(allow_list) => allow_list@.contains(p),
    }
}

/// Whether a principal may convert wrapped tokens to BTC under this mode.
pub open spec fn withdrawal_allowed(m: Mode, p: Principal) -> bool {
    match m {
        Mode::GeneralAvailability => true,
        Mode::ReadOnly => false,
        Mode::RestrictedTo(allow_list) => allow_list@.contains(p),
        Mode::DepositsRestrictedTo(_) => true,
    }
}

/// The message returned when a deposit is denied under this mode.
pub open spec fn deposit_denied_message(m: Mode) -> Seq<char> {
    match m {
        Mode::ReadOnly => "the minter is in read-only mode"@,
        Mode::RestrictedTo(_) => "access to the minter is temporarily restricted"@,
        Mode::DepositsRestrictedTo(_) => "BTC deposits are temporarily restricted"@,
        Mode::GeneralAvailability => ""@,
    }
}

/// The message returned when a withdrawal is denied under this mode.
pub open spec fn withdrawal_denied_message(m: Mode) -> Seq<char> {
    match m {
        Mode::ReadOnly => "the minter is in read-only mode"@,
        Mode::RestrictedTo(_) => "BTC withdrawals are temporarily restricted"@,
        _ => ""@,
    }
}

/// Whether an allow list contains a principal.
fn list_contains(allow_list: &Vec<Principal>, p: &Principal) -> (r: bool)
    ensures
        r == allow_list@.contains(*p),
{
    let mut i: usize = 0;
    while i < allow_list.len()
        invariant
            0 <= i <= allow_list@.len(),
            forall|j: int| 0 <= j < i ==> allow_list@[j] != *p,
        decreases allow_list@.len() - i,
    {
        if allow_list[i] == *p {
            return true;
        }
        i += 1;
    }
    false
}

impl Mode {
    /// Returns `Ok` exactly when the principal may convert BTC to wrapped
    /// tokens, and the reason for the denial otherwise.
    pub fn is_deposit_available_for(&self, p: &Principal) -> (r: Result<(), String>)
        ensures
            r is Ok <==> deposit_allowed(*self, *p),
            r matches Err(msg) ==> msg@ == deposit_denied_message(*self),
    {
        match self {
            Mode::GeneralAvailability => Ok(()),
            Mode::ReadOnly => Err("the minter is in read-only mode".to_owned()),
            Mode::RestrictedTo(allow_list) => {
                if !list_contains(allow_list, p) {
                    return Err("access to the minter is temporarily restricted".to_owned());
                }
                Ok(())
            },
            Mode::DepositsRestrictedTo(allow_list) => {
                if !list_contains(allow_list, p) {
                    return Err("BTC deposits are temporarily restricted".to_owned());
                }
                Ok(())
            },
        }
    }

    /// Returns `Ok` exactly when the principal may convert wrapped tokens to
    /// BTC, and the reason for the denial otherwise.
    pub fn is_withdrawal_available_for(&self, p: &Principal) -> (r: Result<(), String>)
        ensures
            r is Ok <==> withdrawal_allowed(*self, *p),
            r matches Err(msg) ==> msg@ == withdrawal_denied_message(*self),
    {
        match self {
            Mode::GeneralAvailability | Mode::DepositsRestrictedTo(_) => Ok(()),
            Mode::ReadOnly => Err("the minter is in read-only mode".to_owned()),
            Mode::RestrictedTo(allow_list) => {
                if !list_contains(allow_list, p) {
                    return Err("BTC withdrawals are temporarily restricted".to_owned());
                }
                Ok(())
            },
        }
    }
}

impl Default for Mode {
    /// The default mode places no restrictions.
    fn default() -> (r: Self)
        ensures
            r == Mode::GeneralAvailability,
    {
        Mode::GeneralAvailability
    }
}

} // verus!
