//! The credential pool and the selector that picks a credential for a
//! request from what the ledger says.
use vstd::prelude::*;
use crate::ledger::{available, recorded, CredentialId, Ledger, LedgerKey, Timestamp};
use crate::route::RouteKey;

verus! {

/// The first auxiliary position at or after `from`, below `count`, that the
/// ledger lets through on `route` at `now`.
pub open spec fn first_available(
    ledger: Map<LedgerKey, Timestamp>,
    route: Option<Seq<u8>>,
    now: Timestamp,
    from: usize,
    count: usize,
) -> Option<usize>
    decreases count - from,
{
    if from >= count {
        None
    } else if available(ledger, CredentialId::Auxiliary(from), route, now) {
        Some(from)
    } else {
        first_available(ledger, route, now, (from + 1) as usize, count)
    }
}

/// The selector's choice among a primary and `count` auxiliary credentials.
///
/// Without the auxiliary preference the primary is chosen whatever the
/// ledger holds. With it, the first available auxiliary credential in pool
/// order is chosen, and the primary if there is none.
pub open spec fn choice(
    count: usize,
    ledger: Map<LedgerKey, Timestamp>,
    route: Option<Seq<u8>>,
    auxiliary_preferred: bool,
    now: Timestamp,
) -> CredentialId {
    if !auxiliary_preferred {
        CredentialId::Primary
    } else {
        match first_available(ledger, route, now, 0, count) {
            Some(i) => CredentialId::Auxiliary(i),
            None => CredentialId::Primary,
        }
    }
}

/// The credentials a relay works with: one primary token, always usable as
/// the fallback, and auxiliary tokens in a fixed order.
#[derive(Clone, Debug)]
pub struct CredentialPool {
    pub primary: Vec<u8>,
    pub auxiliary: Vec<Vec<u8>>,
}

impl CredentialPool {
    /// Whether `credential` names a credential of this pool.
    pub open spec fn contains(&self, credential: CredentialId) -> bool {
        match credential {
            CredentialId::Primary => true,
            CredentialId::Auxiliary(i) => i < self.auxiliary@.len(),
        }
    }

    /// The token of a credential of this pool.
    pub open spec fn token_spec(&self, credential: CredentialId) -> Seq<u8> {
        match credential {
            CredentialId::Primary => self.primary@,
            CredentialId::Auxiliary(i) => self.auxiliary@[i as int]@,
        }
    }

    /// A pool of the given primary token and auxiliary tokens, in order.
    pub fn new(primary: Vec<u8>, auxiliary: Vec<Vec<u8>>) -> (r: CredentialPool)
        ensures
            r.primary == primary,
            r.auxiliary == auxiliary,
    {
        CredentialPool { primary, auxiliary }
    }

    /// The token that authorizes requests made with `credential`.
    pub fn token(&self, credential: CredentialId) -> (r: &Vec<u8>)
        requires
            self.contains(credential),
        ensures
            r@ == self.token_spec(credential),
    {
        match credential {
            CredentialId::Primary => &self.primary,
            CredentialId::Auxiliary(i) => &self.auxiliary[i],
        }
    }

    /// Picks the credential for a request on `route` at time `now`.
    ///
    /// Always returns a credential of the pool; never waits, never fails.
    pub fn select(&self, ledger: &Ledger, route: &RouteKey, auxiliary_preferred: bool, now: Timestamp) -> (r:
        CredentialId)
        requires
            ledger.wf(),
        ensures
            r == choice(self.auxiliary.len(), ledger@, route@, auxiliary_preferred, now),
            self.contains(r),
    {
        if !auxiliary_preferred {
            return CredentialId::Primary;
        }
        let count: usize = self.auxiliary.len();
        let mut i: usize = 0;
        while i < count
            invariant
                ledger.wf(),
                auxiliary_preferred,
                count == self.auxiliary.len(),
                i <= count,
                first_available(ledger@, route@, now, 0, count) == first_available(
                    ledger@,
                    route@,
                    now,
                    i,
                    count,
                ),
            decreases count - i,
        {
            let free = match ledger.available_at(CredentialId::Auxiliary(i), route) {
                Some(t) => t <= now,
                None => true,
            };
            if free {
                return CredentialId::Auxiliary(i);
            }
            i += 1;
        }
        CredentialId::Primary
    }
}

/// What `first_available` finds is in range and available, and nothing
/// before it, from the starting position on, is available; where it finds
/// nothing, no position from the start on is available.
pub proof fn lemma_first_available(
    ledger: Map<LedgerKey, Timestamp>,
    route: Option<Seq<u8>>,
    now: Timestamp,
    from: usize,
    count: usize,
)
    ensures
        match first_available(ledger, route, now, from, count) {
            Some(i) => from <= i < count && available(ledger, CredentialId::Auxiliary(i), route, now)
                && forall|j: usize|
                from <= j < i ==> !#[trigger] available(ledger, CredentialId::Auxiliary(j), route, now),
            None => forall|j: usize|
                from <= j < count ==> !#[trigger] available(ledger, CredentialId::Auxiliary(j), route, now),
        },
    decreases count - from,
{
    if from < count && !available(ledger, CredentialId::Auxiliary(from), route, now) {
        lemma_first_available(ledger, route, now, (from + 1) as usize, count);
    }
}

/// Without the auxiliary preference the primary credential is chosen,
/// whatever the ledger holds.
pub proof fn lemma_primary_without_signal(
    count: usize,
    ledger: Map<LedgerKey, Timestamp>,
    route: Option<Seq<u8>>,
    now: Timestamp,
)
    ensures
        choice(count, ledger, route, false, now) == CredentialId::Primary,
{
}

/// If no auxiliary credential is available on a route, the primary
/// credential is chosen.
pub proof fn lemma_primary_when_all_restricted(
    count: usize,
    ledger: Map<LedgerKey, Timestamp>,
    route: Option<Seq<u8>>,
    auxiliary_preferred: bool,
    now: Timestamp,
)
    requires
        forall|j: usize| j < count ==> !#[trigger] available(ledger, CredentialId::Auxiliary(j), route, now),
    ensures
        choice(count, ledger, route, auxiliary_preferred, now) == CredentialId::Primary,
{
    lemma_first_available(ledger, route, now, 0, count);
}

/// After a reset time that still lies ahead has been recorded for an
/// auxiliary credential on a route, the selector does not choose that
/// credential for that route.
pub proof fn lemma_restricted_credential_skipped(
    count: usize,
    ledger: Map<LedgerKey, Timestamp>,
    index: usize,
    route: Option<Seq<u8>>,
    reset: Timestamp,
    auxiliary_preferred: bool,
    now: Timestamp,
)
    requires
        now < reset,
    ensures
        choice(
            count,
            recorded(ledger, (CredentialId::Auxiliary(index), route), Some(reset)),
            route,
            auxiliary_preferred,
            now,
        ) != CredentialId::Auxiliary(index),
{
    lemma_first_available(
        recorded(ledger, (CredentialId::Auxiliary(index), route), Some(reset)),
        route,
        now,
        0,
        count,
    );
}

} // verus!
