//! Change detection for the persisted ticker record.

use vstd::prelude::*;

verus! {

/// Whether an observed modification marker differs from the last one seen.
pub open spec fn fingerprint_changed(last: u64, observed: u64) -> bool {
    observed != last
}

/// The marker remembered after one check.
pub open spec fn fingerprint_after(last: u64, observed: u64) -> u64 {
    if fingerprint_changed(last, observed) {
        observed
    } else {
        last
    }
}

/// Process-lifetime memory of the last observed modification marker of
/// the persisted ticker record. One instance, owned by the polling loop's
/// driver, replaces ambient global state.
pub struct TickerStore {
    last_fingerprint: u64,
}

impl TickerStore {
    pub closed spec fn last_seen(&self) -> u64 {
        self.last_fingerprint
    }

    /// A fresh store that has observed no marker yet.
    pub fn new() -> (r: TickerStore)
        ensures
            r.last_seen() == 0,
    {
        TickerStore { last_fingerprint: 0 }
    }

    /// One update check: reports whether the marker moved and remembers
    /// it. The caller reloads the persisted set exactly when this returns
    /// true.
    pub fn check_fingerprint(&mut self, observed: u64) -> (changed: bool)
        ensures
            changed == fingerprint_changed(old(self).last_seen(), observed),
            final(self).last_seen() == fingerprint_after(old(self).last_seen(), observed),
    {
        if self.last_fingerprint != observed {
            self.last_fingerprint = observed;
            true
        } else {
            false
        }
    }
}

/// Two consecutive update checks with no modification in between: the
/// second always reports "unchanged".
pub proof fn lemma_recheck_unchanged(last: u64, observed: u64)
    ensures
        !fingerprint_changed(fingerprint_after(last, observed), observed),
{
}

} // verus!
