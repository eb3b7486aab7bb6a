//! The rate-limit ledger: for each credential and route key, the earliest
//! time at which the credential is known to be usable again on that route.
//!
//! The ledger is advisory. It only ever holds what upstream responses said;
//! a pair without an entry counts as available now.
use vstd::prelude::*;
use crate::route::RouteKey;

verus! {

/// Names one credential of a pool: the primary, or an auxiliary credential
/// by its position in the pool's fixed order.
#[derive(Clone, Copy, Debug, PartialEq, Eq, Structural)]
pub enum CredentialId {
    Primary,
    Auxiliary(usize),
}

/// Seconds on whatever clock the caller uses throughout.
pub type Timestamp = u64;

/// What the ledger is keyed by, in contracts: a credential and the view of
/// a route key.
pub type LedgerKey = (CredentialId, Option<Seq<u8>>);

/// One recorded restriction.
#[derive(Clone, Debug)]
struct Entry {
    credential: CredentialId,
    route: RouteKey,
    available_at: Timestamp,
}

impl Entry {
    spec fn key(&self) -> LedgerKey {
        (self.credential, self.route@)
    }
}

/// The ledger's contents after an observation for `key`: a reset time
/// overwrites the pair's entry, no reset time removes it.
pub open spec fn recorded(
    ledger: Map<LedgerKey, Timestamp>,
    key: LedgerKey,
    observed_reset: Option<Timestamp>,
) -> Map<LedgerKey, Timestamp> {
    match observed_reset {
        Some(t) => ledger.insert(key, t),
        None => ledger.remove(key),
    }
}

/// The recorded restrictions, at most one per credential and route key.
#[derive(Clone, Debug)]
pub struct Ledger {
    entries: Vec<Entry>,
}

impl Ledger {
    /// The entry at position `i` is the one recorded for `k`.
    spec fn holds_at(&self, k: LedgerKey, i: int) -> bool {
        0 <= i < self.entries@.len() && self.entries@[i].key() == k
    }

    /// No pair is recorded twice.
    pub closed spec fn wf(&self) -> bool {
        forall|i: int, j: int|
            0 <= i < self.entries@.len() && 0 <= j < self.entries@.len()
                && #[trigger] self.entries@[i].key() == #[trigger] self.entries@[j].key() ==> i == j
    }

    /// The ledger as a map from (credential, route key) to the recorded
    /// available-at time. Pairs outside the map's domain are unrestricted.
    pub closed spec fn view(&self) -> Map<LedgerKey, Timestamp> {
        Map::new(
            |k: LedgerKey| exists|i: int| self.holds_at(k, i),
            |k: LedgerKey| self.entries@[choose|i: int| self.holds_at(k, i)].available_at,
        )
    }

    /// An empty ledger: every credential is available on every route.
    pub fn new() -> (r: Ledger)
        ensures
            r.wf(),
            r@ == Map::<LedgerKey, Timestamp>::empty(),
    {
        let r = Ledger { entries: Vec::new() };
        assert(r@ =~= Map::<LedgerKey, Timestamp>::empty());
        r
    }

    fn position(&self, credential: CredentialId, route: &RouteKey) -> (r: Option<usize>)
        requires
            self.wf(),
        ensures
            match r {
                Some(i) => self.holds_at((credential, route@), i as int),
                None => forall|i: int| !self.holds_at((credential, route@), i),
            },
    {
        let mut i: usize = 0;
        while i < self.entries.len()
            invariant
                i <= self.entries@.len(),
                forall|j: int| 0 <= j < i ==> !self.holds_at((credential, route@), j),
            decreases self.entries@.len() - i,
        {
            if self.entries[i].credential == credential && self.entries[i].route.same(route) {
                return Some(i);
            }
            i += 1;
        }
        None
    }

    /// The recorded time after which `credential` counts as available on
    /// `route`, or `None` if nothing restricts it.
    pub fn available_at(&self, credential: CredentialId, route: &RouteKey) -> (r: Option<Timestamp>)
        requires
            self.wf(),
        ensures
            r == (if self@.contains_key((credential, route@)) {
                Some(self@[(credential, route@)])
            } else {
                None
            }),
    {
        match self.position(credential, route) {
            Some(i) => {
                proof {
                    self.lemma_holds((credential, route@), i as int);
                }
                Some(self.entries[i].available_at)
            },
            None => {
                proof {
                    if self@.contains_key((credential, route@)) {
                        let j = self.witness((credential, route@));
                    }
                }
                None
            },
        }
    }

    /// Records what the latest response said about `credential` on `route`.
    ///
    /// A reset time replaces whatever was recorded for the pair; no reset
    /// time removes the pair's entry. Every other pair is left as it was.
    pub fn record(&mut self, credential: CredentialId, route: &RouteKey, observed_reset: Option<Timestamp>)
        requires
            old(self).wf(),
        ensures
            final(self).wf(),
            final(self)@ == recorded(old(self)@, (credential, route@), observed_reset),
    {
        let ghost k = (credential, route@);
        let ghost before = *self;
        let found = self.position(credential, route);
        match (found, observed_reset) {
            (Some(i), Some(t)) => {
                let entry = Entry { credential, route: route.duplicate(), available_at: t };
                self.entries.set(i, entry);
                proof {
                    assert forall|q: LedgerKey, j: int| #[trigger] self.holds_at(q, j) == before.holds_at(q, j) by {
                        if 0 <= j < self.entries@.len() && j != i {
                            assert(self.entries@[j] == before.entries@[j]);
                        }
                    }
                    assert(self.wf()) by {
                        assert forall|a: int, b: int|
                            0 <= a < self.entries@.len() && 0 <= b < self.entries@.len()
                                && #[trigger] self.entries@[a].key() == #[trigger] self.entries@[b].key()
                                implies a == b by {
                            assert(self.holds_at(self.entries@[a].key(), a));
                            assert(self.holds_at(self.entries@[a].key(), b));
                            before.lemma_unique(self.entries@[a].key(), a, b);
                        }
                    }
                    assert forall|q: LedgerKey| #[trigger] self@.dom().contains(q) == before@.insert(k, t).dom().contains(q)
                        && (self@.dom().contains(q) ==> self@[q] == before@.insert(k, t)[q]) by {
                        before.lemma_holds(k, i as int);
                        if self@.contains_key(q) {
                            let c = self.witness(q);
                            before.lemma_holds(q, c);
                            self.lemma_holds(q, c);
                            if q == k {
                                before.lemma_unique(k, c, i as int);
                            } else {
                                assert(c != i);
                                assert(self.entries@[c] == before.entries@[c]);
                            }
                        }
                        if before@.contains_key(q) {
                            let d = before.witness(q);
                            self.lemma_holds(q, d);
                        }
                    }
                    assert(self@.dom() =~= before@.insert(k, t).dom());
                    assert(self@ =~= before@.insert(k, t));
                }
            },
            (None, Some(t)) => {
                let entry = Entry { credential, route: route.duplicate(), available_at: t };
                self.entries.push(entry);
                proof {
                    let n = before.entries@.len() as int;
                    assert forall|q: LedgerKey, j: int| j != n implies #[trigger] self.holds_at(q, j)
                        == before.holds_at(q, j) by {
                        if 0 <= j < n {
                            assert(self.entries@[j] == before.entries@[j]);
                        }
                    }
                    assert(self.holds_at(k, n));
                    assert(self.wf()) by {
                        assert forall|a: int, b: int|
                            0 <= a < self.entries@.len() && 0 <= b < self.entries@.len()
                                && #[trigger] self.entries@[a].key() == #[trigger] self.entries@[b].key()
                                implies a == b by {
                            let q = self.entries@[a].key();
                            assert(self.holds_at(q, a));
                            assert(self.holds_at(q, b));
                            if a < n && b < n {
                                before.lemma_unique(q, a, b);
                            } else if a < n {
                                assert(before.holds_at(k, a));
                            } else if b < n {
                                assert(before.holds_at(k, b));
                            }
                        }
                    }
                    assert forall|q: LedgerKey| #[trigger] self@.dom().contains(q) == before@.insert(k, t).dom().contains(q)
                        && (self@.dom().contains(q) ==> self@[q] == before@.insert(k, t)[q]) by {
                        self.lemma_holds(k, n);
                        if self@.contains_key(q) {
                            let c = self.witness(q);
                            self.lemma_holds(q, c);
                            if c != n {
                                before.lemma_holds(q, c);
                                assert(self.entries@[c] == before.entries@[c]);
                            }
                        }
                        if before@.contains_key(q) {
                            let d = before.witness(q);
                            self.lemma_holds(q, d);
                        }
                    }
                    assert(self@.dom() =~= before@.insert(k, t).dom());
                    assert(self@ =~= before@.insert(k, t));
                }
            },
            (Some(i), None) => {
                self.entries.remove(i);
                proof {
                    let n = before.entries@.len() as int;
                    assert forall|q: LedgerKey, j: int| #[trigger] self.holds_at(q, j) == (if j < i {
                        before.holds_at(q, j)
                    } else {
                        before.holds_at(q, j + 1)
                    }) by {
                        if 0 <= j < n - 1 {
                            assert(self.entries@[j] == before.entries@[if j < i { j } else { j + 1 }]);
                        }
                    }
                    assert(self.wf()) by {
                        assert forall|a: int, b: int|
                            0 <= a < self.entries@.len() && 0 <= b < self.entries@.len()
                                && #[trigger] self.entries@[a].key() == #[trigger] self.entries@[b].key()
                                implies a == b by {
                            let q = self.entries@[a].key();
                            assert(self.holds_at(q, a));
                            assert(self.holds_at(q, b));
                            before.lemma_unique(q, if a < i { a } else { a + 1 }, if b < i { b } else { b + 1 });
                        }
                    }
                    assert forall|q: LedgerKey| #[trigger] self@.dom().contains(q) == before@.remove(k).dom().contains(q)
                        && (self@.dom().contains(q) ==> self@[q] == before@.remove(k)[q]) by {
                        before.lemma_holds(k, i as int);
                        if self@.contains_key(q) {
                            let c = self.witness(q);
                            let c2 = if c < i { c } else { c + 1 };
                            self.lemma_holds(q, c);
                            before.lemma_holds(q, c2);
                            assert(self.entries@[c] == before.entries@[c2]);
                            if q == k {
                                before.lemma_unique(k, c2, i as int);
                            }
                        }
                        if before@.contains_key(q) && q != k {
                            let d = before.witness(q);
                            assert(d != i);
                            self.lemma_holds(q, if d < i { d } else { d - 1 });
                        }
                    }
                    assert(self@.dom() =~= before@.remove(k).dom());
                    assert(self@ =~= before@.remove(k));
                }
            },
            (None, None) => {
                proof {
                    if before@.contains_key(k) {
                        let d = before.witness(k);
                    }
                    assert(self@ =~= before@.remove(k));
                }
            },
        }
    }

    proof fn witness(&self, q: LedgerKey) -> (j: int)
        requires
            self@.contains_key(q),
        ensures
            self.holds_at(q, j),
    {
        choose|j: int| self.holds_at(q, j)
    }

    proof fn lemma_unique(&self, q: LedgerKey, a: int, b: int)
        requires
            self.wf(),
            self.holds_at(q, a),
            self.holds_at(q, b),
        ensures
            a == b,
    {
        assert(self.entries@[a].key() == self.entries@[b].key());
    }

    proof fn lemma_holds(&self, q: LedgerKey, j: int)
        requires
            self.wf(),
            self.holds_at(q, j),
        ensures
            self@.contains_key(q),
            self@[q] == self.entries@[j].available_at,
    {
        let c = choose|c: int| self.holds_at(q, c);
        self.lemma_unique(q, c, j);
    }
}

/// Whether the ledger lets `credential` be used on `route` at time `now`:
/// nothing is recorded for the pair, or the recorded time has been reached.
pub open spec fn available(
    ledger: Map<LedgerKey, Timestamp>,
    credential: CredentialId,
    route: Option<Seq<u8>>,
    now: Timestamp,
) -> bool {
    !ledger.contains_key((credential, route)) || ledger[(credential, route)] <= now
}

/// A recorded reset time is what the ledger answers for that pair, and it
/// stays the answer while other pairs are recorded or cleared.
pub proof fn lemma_recorded_reset_persists(
    ledger: Map<LedgerKey, Timestamp>,
    key: LedgerKey,
    reset: Timestamp,
    other: LedgerKey,
    other_reset: Option<Timestamp>,
)
    requires
        other != key,
    ensures
        recorded(ledger, key, Some(reset)).contains_key(key),
        recorded(ledger, key, Some(reset))[key] == reset,
        recorded(recorded(ledger, key, Some(reset)), other, other_reset).contains_key(key),
        recorded(recorded(ledger, key, Some(reset)), other, other_reset)[key] == reset,
{
}

/// A pair with a recorded reset time is unavailable exactly until that time
/// is reached.
pub proof fn lemma_recorded_reset_gates(
    ledger: Map<LedgerKey, Timestamp>,
    credential: CredentialId,
    route: Option<Seq<u8>>,
    reset: Timestamp,
    now: Timestamp,
)
    ensures
        available(recorded(ledger, (credential, route), Some(reset)), credential, route, now) == (reset
            <= now),
        available(recorded(ledger, (credential, route), None), credential, route, now),
{
}

} // verus!
