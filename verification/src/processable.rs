//! The partition of an account's observed UTXOs into the ones that can be
//! processed now: new ones, previously ignored ones and previously
//! quarantined ones.  A UTXO never stands in more than one part.

use vstd::prelude::*;

use crate::domain::Utxo;
use crate::records::SuspendedReason;

verus! {

/// A suspended UTXO reported back to the caller, with the earliest time at
/// which it will be evaluated again.
#[derive(Clone, Copy, PartialEq, Debug)]
pub struct SuspendedUtxo {
    pub utxo: Utxo,
    pub reason: SuspendedReason,
    pub earliest_retry: u64,
}

/// The UTXOs of an account that can be processed now.
#[derive(PartialEq, Debug)]
pub struct ProcessableUtxos {
    /// UTXOs not yet known to the minter.
    pub new_utxos: Vec<Utxo>,
    /// UTXOs once ignored for a too-small value, due for re-evaluation.
    pub previously_ignored_utxos: Vec<Utxo>,
    /// UTXOs once quarantined, due for re-evaluation.
    pub previously_quarantined_utxos: Vec<Utxo>,
}

impl ProcessableUtxos {
    /// No UTXO appears twice, neither within a part nor across parts.
    pub open spec fn wf(self) -> bool {
        &&& forall|i: int, j: int|
            0 <= i < j < self.new_utxos@.len() ==> self.new_utxos@[i] != self.new_utxos@[j]
        &&& forall|i: int, j: int|
            0 <= i < j < self.previously_ignored_utxos@.len()
                ==> self.previously_ignored_utxos@[i] != self.previously_ignored_utxos@[j]
        &&& forall|i: int, j: int|
            0 <= i < j < self.previously_quarantined_utxos@.len()
                ==> self.previously_quarantined_utxos@[i]
                != self.previously_quarantined_utxos@[j]
        &&& forall|u: Utxo|
            !(self.new_utxos@.contains(u) && self.previously_ignored_utxos@.contains(u))
        &&& forall|u: Utxo|
            !(self.new_utxos@.contains(u) && self.previously_quarantined_utxos@.contains(u))
        &&& forall|u: Utxo|
            !(self.previously_ignored_utxos@.contains(u)
                && self.previously_quarantined_utxos@.contains(u))
    }

    /// Whether a UTXO stands in any of the three parts.
    pub open spec fn holds(self, u: Utxo) -> bool {
        self.new_utxos@.contains(u) || self.previously_ignored_utxos@.contains(u)
            || self.previously_quarantined_utxos@.contains(u)
    }

    /// An empty partition.
    pub fn new() -> (r: ProcessableUtxos)
        ensures
            r.wf(),
            r.new_utxos@.len() == 0,
            r.previously_ignored_utxos@.len() == 0,
            r.previously_quarantined_utxos@.len() == 0,
    {
        ProcessableUtxos {
            new_utxos: Vec::new(),
            previously_ignored_utxos: Vec::new(),
            previously_quarantined_utxos: Vec::new(),
        }
    }

    /// Files a previously suspended UTXO under the part its reason calls for.
    /// The UTXO must be fresh to the partition.
    pub fn insert_once_suspended_utxo(&mut self, utxo: Utxo, reason: &SuspendedReason)
        requires
            old(self).wf(),
            !old(self).holds(utxo),
        ensures
            final(self).wf(),
            *reason == SuspendedReason::ValueTooSmall ==> {
                &&& final(self).previously_ignored_utxos@ == old(
                    self,
                ).previously_ignored_utxos@.push(utxo)
                &&& final(self).previously_quarantined_utxos@ == old(
                    self,
                ).previously_quarantined_utxos@
                &&& final(self).new_utxos@ == old(self).new_utxos@
            },
            *reason == SuspendedReason::Quarantined ==> {
                &&& final(self).previously_quarantined_utxos@ == old(
                    self,
                ).previously_quarantined_utxos@.push(utxo)
                &&& final(self).previously_ignored_utxos@ == old(self).previously_ignored_utxos@
                &&& final(self).new_utxos@ == old(self).new_utxos@
            },
    {
        match reason {
            SuspendedReason::ValueTooSmall => self.previously_ignored_utxos.push(utxo),
            SuspendedReason::Quarantined => self.previously_quarantined_utxos.push(utxo),
        }
    }

    /// Files a UTXO unknown to the minter.  The UTXO must be fresh to the
    /// partition.
    pub fn insert_once_new_utxo(&mut self, utxo: Utxo)
        requires
            old(self).wf(),
            !old(self).holds(utxo),
        ensures
            final(self).wf(),
            final(self).new_utxos@ == old(self).new_utxos@.push(utxo),
            final(self).previously_ignored_utxos@ == old(self).previously_ignored_utxos@,
            final(self).previously_quarantined_utxos@ == old(self).previously_quarantined_utxos@,
    {
        self.new_utxos.push(utxo);
    }

    /// All processable UTXOs: the new ones, then the previously ignored ones,
    /// then the previously quarantined ones.
    pub fn iter(&self) -> (r: Vec<Utxo>)
        ensures
            r@ == self.new_utxos@ + self.previously_ignored_utxos@
                + self.previously_quarantined_utxos@,
    {
        let mut out: Vec<Utxo> = Vec::new();
        append_utxos(&mut out, &self.new_utxos);
        append_utxos(&mut out, &self.previously_ignored_utxos);
        append_utxos(&mut out, &self.previously_quarantined_utxos);
        out
    }
}

impl Default for ProcessableUtxos {
    /// The empty partition.
    fn default() -> (r: Self)
        ensures
            r.wf(),
            r.new_utxos@.len() == 0,
            r.previously_ignored_utxos@.len() == 0,
            r.previously_quarantined_utxos@.len() == 0,
    {
        ProcessableUtxos::new()
    }
}

/// Appends a copy of every UTXO in `src` to `out`.
fn append_utxos(out: &mut Vec<Utxo>, src: &Vec<Utxo>)
    ensures
        final(out)@ == old(out)@ + src@,
{
    let mut i: usize = 0;
    while i < src.len()
        invariant
            0 <= i <= src@.len(),
            out@ == old(out)@ + src@.take(i as int),
        decreases src@.len() - i,
    {
        let u = src[i];
        out.push(u);
        proof {
            assert(out@ =~= old(out)@ + src@.take(i + 1));
        }
        i += 1;
    }
    proof {
        assert(old(out)@ + src@.take(src@.len() as int) =~= old(out)@ + src@);
    }
}

} // verus!
