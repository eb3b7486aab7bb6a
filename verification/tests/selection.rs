use credential_relay::ledger::{CredentialId, Ledger};
use credential_relay::route::RouteKey;
use credential_relay::selector::CredentialPool;

fn b(s: &str) -> Vec<u8> {
    s.as_bytes().to_vec()
}

fn key(s: &str) -> RouteKey {
    RouteKey::Bucket(b(s))
}

fn pool() -> CredentialPool {
    CredentialPool::new(b("main"), vec![b("aux1"), b("aux2"), b("aux3")])
}

#[test]
fn empty_ledger_restricts_nothing() {
    let ledger = Ledger::new();
    assert_eq!(ledger.available_at(CredentialId::Primary, &key("Gateway")), None);
    assert_eq!(ledger.available_at(CredentialId::Auxiliary(0), &RouteKey::Unclassified), None);
}

#[test]
fn recorded_reset_is_returned_until_overwritten() {
    let mut ledger = Ledger::new();
    let c = CredentialId::Auxiliary(1);
    ledger.record(c, &key("Gateway"), Some(105));
    assert_eq!(ledger.available_at(c, &key("Gateway")), Some(105));
    ledger.record(CredentialId::Auxiliary(0), &key("Gateway"), Some(300));
    ledger.record(c, &key("GatewayBot"), Some(400));
    ledger.record(CredentialId::Primary, &key("Gateway"), None);
    assert_eq!(ledger.available_at(c, &key("Gateway")), Some(105));
    ledger.record(c, &key("Gateway"), Some(90));
    assert_eq!(ledger.available_at(c, &key("Gateway")), Some(90));
    assert_eq!(ledger.available_at(CredentialId::Auxiliary(0), &key("Gateway")), Some(300));
    assert_eq!(ledger.available_at(c, &key("GatewayBot")), Some(400));
}

#[test]
fn absent_reset_clears_the_entry() {
    let mut ledger = Ledger::new();
    let c = CredentialId::Auxiliary(0);
    ledger.record(c, &key("Gateway"), Some(50));
    ledger.record(c, &RouteKey::Unclassified, Some(60));
    ledger.record(c, &key("Gateway"), None);
    assert_eq!(ledger.available_at(c, &key("Gateway")), None);
    assert_eq!(ledger.available_at(c, &RouteKey::Unclassified), Some(60));
    ledger.record(c, &key("Gateway"), None);
    assert_eq!(ledger.available_at(c, &key("Gateway")), None);
}

#[test]
fn entries_are_kept_apart_by_credential_and_route() {
    let mut ledger = Ledger::new();
    ledger.record(CredentialId::Primary, &key("A"), Some(1));
    ledger.record(CredentialId::Auxiliary(0), &key("A"), Some(2));
    ledger.record(CredentialId::Auxiliary(1), &key("A"), Some(3));
    ledger.record(CredentialId::Auxiliary(0), &key("B"), Some(4));
    ledger.record(CredentialId::Auxiliary(0), &key("A"), None);
    assert_eq!(ledger.available_at(CredentialId::Primary, &key("A")), Some(1));
    assert_eq!(ledger.available_at(CredentialId::Auxiliary(0), &key("A")), None);
    assert_eq!(ledger.available_at(CredentialId::Auxiliary(1), &key("A")), Some(3));
    assert_eq!(ledger.available_at(CredentialId::Auxiliary(0), &key("B")), Some(4));
}

#[test]
fn without_signal_primary_is_chosen_whatever_the_ledger_holds() {
    let p = pool();
    let mut ledger = Ledger::new();
    assert_eq!(p.select(&ledger, &key("A"), false, 0), CredentialId::Primary);
    ledger.record(CredentialId::Primary, &key("A"), Some(u64::MAX));
    ledger.record(CredentialId::Auxiliary(0), &key("A"), Some(7));
    ledger.record(CredentialId::Auxiliary(2), &key("B"), Some(9));
    for now in [0u64, 7, 8, u64::MAX] {
        assert_eq!(p.select(&ledger, &key("A"), false, now), CredentialId::Primary);
        assert_eq!(p.select(&ledger, &key("B"), false, now), CredentialId::Primary);
    }
}

#[test]
fn with_signal_first_unrestricted_auxiliary_is_chosen() {
    let p = pool();
    let mut ledger = Ledger::new();
    assert_eq!(p.select(&ledger, &key("A"), true, 100), CredentialId::Auxiliary(0));
    ledger.record(CredentialId::Auxiliary(0), &key("A"), Some(105));
    assert_eq!(p.select(&ledger, &key("A"), true, 100), CredentialId::Auxiliary(1));
    assert_eq!(p.select(&ledger, &key("B"), true, 100), CredentialId::Auxiliary(0));
    ledger.record(CredentialId::Auxiliary(1), &key("A"), Some(101));
    assert_eq!(p.select(&ledger, &key("A"), true, 100), CredentialId::Auxiliary(2));
}

#[test]
fn restricted_credential_is_skipped_until_reset_has_passed() {
    let p = pool();
    let mut ledger = Ledger::new();
    ledger.record(CredentialId::Auxiliary(0), &key("A"), Some(105));
    assert_eq!(p.select(&ledger, &key("A"), true, 104), CredentialId::Auxiliary(1));
    assert_eq!(p.select(&ledger, &key("A"), true, 105), CredentialId::Auxiliary(0));
    assert_eq!(p.select(&ledger, &key("A"), true, 106), CredentialId::Auxiliary(0));
}

#[test]
fn all_auxiliary_restricted_falls_back_to_primary() {
    let p = pool();
    let mut ledger = Ledger::new();
    ledger.record(CredentialId::Auxiliary(0), &key("A"), Some(200));
    ledger.record(CredentialId::Auxiliary(1), &key("A"), Some(201));
    ledger.record(CredentialId::Auxiliary(2), &key("A"), Some(202));
    ledger.record(CredentialId::Primary, &key("A"), Some(500));
    assert_eq!(p.select(&ledger, &key("A"), true, 100), CredentialId::Primary);
    assert_eq!(p.select(&ledger, &key("A"), true, 201), CredentialId::Auxiliary(0));
}

#[test]
fn pool_without_auxiliaries_always_gives_primary() {
    let p = CredentialPool::new(b("main"), Vec::new());
    let ledger = Ledger::new();
    assert_eq!(p.select(&ledger, &key("A"), true, 0), CredentialId::Primary);
    assert_eq!(p.select(&ledger, &key("A"), false, 0), CredentialId::Primary);
}

#[test]
fn token_of_each_credential() {
    let p = pool();
    assert_eq!(p.token(CredentialId::Primary), &b("main"));
    assert_eq!(p.token(CredentialId::Auxiliary(0)), &b("aux1"));
    assert_eq!(p.token(CredentialId::Auxiliary(2)), &b("aux3"));
}
