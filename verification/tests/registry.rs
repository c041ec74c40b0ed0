use trust_registry::registry::{Contract, RegistryError, REQUIRED_DEPOSIT};

fn s(x: &str) -> String {
    x.to_string()
}

#[test]
fn unknown_entry_is_absent() {
    let c = Contract::new(vec![s("A")]);
    assert_eq!(c.get_verification(s("never-seen")), None);
}

#[test]
fn first_vote_creates_entry() {
    let mut c = Contract::new(vec![s("A")]);
    assert_eq!(c.submit_verification(s("x"), true, s("V1"), 1), Ok(()));
    assert_eq!(c.get_verification(s("x")), Some((1, 1)));
}

#[test]
fn untrusted_vote_counts_as_zero() {
    let mut c = Contract::new(vec![s("A")]);
    assert_eq!(c.submit_verification(s("x"), false, s("V1"), 1), Ok(()));
    assert_eq!(c.get_verification(s("x")), Some((0, 1)));
}

#[test]
fn idempotent_voting() {
    let mut c = Contract::new(vec![s("A")]);
    assert_eq!(c.submit_verification(s("x"), true, s("V1"), 1), Ok(()));
    assert_eq!(c.get_verification(s("x")), Some((1, 1)));
    // a repeated vote from the same identity changes nothing, whatever its verdict
    assert_eq!(c.submit_verification(s("x"), false, s("V1"), 1), Ok(()));
    assert_eq!(c.get_verification(s("x")), Some((1, 1)));
    assert_eq!(c.submit_verification(s("x"), true, s("V1"), 1), Ok(()));
    assert_eq!(c.get_verification(s("x")), Some((1, 1)));
}

#[test]
fn votes_from_distinct_identities_accumulate() {
    let mut c = Contract::new(vec![s("A")]);
    assert_eq!(c.submit_verification(s("x"), true, s("V1"), 1), Ok(()));
    assert_eq!(c.submit_verification(s("x"), true, s("V2"), 1), Ok(()));
    assert_eq!(c.submit_verification(s("x"), false, s("V3"), 1), Ok(()));
    assert_eq!(c.get_verification(s("x")), Some((2, 3)));
}

#[test]
fn entries_are_independent() {
    let mut c = Contract::new(vec![s("A")]);
    assert_eq!(c.submit_verification(s("x"), true, s("V1"), 1), Ok(()));
    assert_eq!(c.submit_verification(s("y"), false, s("V1"), 1), Ok(()));
    assert_eq!(c.get_verification(s("x")), Some((1, 1)));
    assert_eq!(c.get_verification(s("y")), Some((0, 1)));
}

#[test]
fn pin_freezes_the_entry() {
    let mut c = Contract::new(vec![s("A")]);
    assert_eq!(c.submit_verification(s("x"), true, s("V1"), 1), Ok(()));
    assert_eq!(c.pin_verification(s("x"), false, s("A"), 1), Ok(()));
    assert_eq!(c.get_verification(s("x")), Some((0, 1)));
    // later votes are silently ignored
    assert_eq!(c.submit_verification(s("x"), true, s("V2"), 1), Ok(()));
    assert_eq!(c.submit_verification(s("x"), true, s("V3"), 1), Ok(()));
    assert_eq!(c.get_verification(s("x")), Some((0, 1)));
}

#[test]
fn pin_creates_missing_entry() {
    let mut c = Contract::new(vec![s("A")]);
    assert_eq!(c.pin_verification(s("x"), true, s("A"), 1), Ok(()));
    assert_eq!(c.get_verification(s("x")), Some((1, 1)));
}

#[test]
fn pin_can_be_overwritten_but_never_unpinned() {
    let mut c = Contract::new(vec![s("A")]);
    assert_eq!(c.pin_verification(s("x"), true, s("A"), 1), Ok(()));
    assert_eq!(c.get_verification(s("x")), Some((1, 1)));
    assert_eq!(c.pin_verification(s("x"), false, s("A"), 1), Ok(()));
    assert_eq!(c.get_verification(s("x")), Some((0, 1)));
    // still frozen against votes after the re-pin
    assert_eq!(c.submit_verification(s("x"), true, s("V1"), 1), Ok(()));
    assert_eq!(c.get_verification(s("x")), Some((0, 1)));
}

#[test]
fn authority_gate_on_pin() {
    let mut c = Contract::new(vec![s("A")]);
    assert_eq!(c.submit_verification(s("x"), true, s("V1"), 1), Ok(()));
    assert_eq!(
        c.pin_verification(s("x"), false, s("mallory"), 1),
        Err(RegistryError::Unauthorized)
    );
    // nothing changed
    assert_eq!(c.get_verification(s("x")), Some((1, 1)));
    assert_eq!(c.submit_verification(s("x"), false, s("V2"), 1), Ok(()));
    assert_eq!(c.get_verification(s("x")), Some((1, 2)));
}

#[test]
fn authority_gate_on_add_authorities() {
    let mut c = Contract::new(vec![s("A")]);
    assert_eq!(
        c.add_authorities(vec![s("mallory")], s("mallory"), 1),
        Err(RegistryError::Unauthorized)
    );
    assert!(!c.is_authority(&s("mallory")));
    assert!(c.is_authority(&s("A")));
}

#[test]
fn authority_check_runs_before_payment_check() {
    let mut c = Contract::new(vec![s("A")]);
    // a non-authority with a wrong deposit is rejected as unauthorized
    assert_eq!(
        c.pin_verification(s("x"), false, s("mallory"), 0),
        Err(RegistryError::Unauthorized)
    );
    assert_eq!(
        c.add_authorities(vec![s("B")], s("mallory"), 0),
        Err(RegistryError::Unauthorized)
    );
}

#[test]
fn missing_payment_on_submit() {
    let mut c = Contract::new(vec![s("A")]);
    assert_eq!(
        c.submit_verification(s("x"), true, s("V1"), 0),
        Err(RegistryError::MissingPayment)
    );
    assert_eq!(
        c.submit_verification(s("x"), true, s("V1"), 2),
        Err(RegistryError::MissingPayment)
    );
    assert_eq!(c.get_verification(s("x")), None);
}

#[test]
fn missing_payment_on_pin_and_grant() {
    let mut c = Contract::new(vec![s("A")]);
    assert_eq!(
        c.pin_verification(s("x"), true, s("A"), 0),
        Err(RegistryError::MissingPayment)
    );
    assert_eq!(c.get_verification(s("x")), None);
    assert_eq!(
        c.add_authorities(vec![s("B")], s("A"), 2),
        Err(RegistryError::MissingPayment)
    );
    assert!(!c.is_authority(&s("B")));
}

#[test]
fn authority_monotonicity() {
    let mut c = Contract::new(vec![s("A")]);
    assert_eq!(c.add_authorities(vec![s("B"), s("C")], s("A"), 1), Ok(()));
    assert!(c.is_authority(&s("A")));
    assert!(c.is_authority(&s("B")));
    assert!(c.is_authority(&s("C")));
    // a duplicate grant is a no-op
    assert_eq!(c.add_authorities(vec![s("B")], s("C"), 1), Ok(()));
    assert!(c.is_authority(&s("B")));
    // and a new authority can extend the set in turn
    assert_eq!(c.add_authorities(vec![s("D")], s("B"), 1), Ok(()));
    assert!(c.is_authority(&s("D")));
}

#[test]
fn scenario_votes_then_pin() {
    let mut c = Contract::new(vec![s("A")]);
    assert_eq!(c.submit_verification(s("x"), true, s("V1"), 1), Ok(()));
    assert_eq!(c.get_verification(s("x")), Some((1, 1)));
    assert_eq!(c.submit_verification(s("x"), false, s("V2"), 1), Ok(()));
    assert_eq!(c.get_verification(s("x")), Some((1, 2)));
    assert_eq!(c.pin_verification(s("x"), false, s("A"), 1), Ok(()));
    assert_eq!(c.get_verification(s("x")), Some((0, 1)));
    assert_eq!(c.submit_verification(s("x"), true, s("V3"), 1), Ok(()));
    assert_eq!(c.get_verification(s("x")), Some((0, 1)));
    // as real-valued scores: 1.0, then 0.5, then pinned 0.0
    let (n, d) = c.get_verification(s("x")).unwrap();
    assert_eq!(n as f64 / d as f64, 0.0);
}

#[test]
fn default_registry_is_empty() {
    let c = Contract::default();
    assert_eq!(c.get_verification(s("x")), None);
    assert!(!c.is_authority(&s("A")));
    assert!(c.check_wf());
}

#[test]
fn new_accepts_duplicate_authorities() {
    let c = Contract::new(vec![s("A"), s("A"), s("B")]);
    assert!(c.is_authority(&s("A")));
    assert!(c.is_authority(&s("B")));
    assert!(!c.is_authority(&s("C")));
}

#[test]
fn required_deposit_is_one_unit() {
    assert_eq!(REQUIRED_DEPOSIT, 1);
    let mut c = Contract::new(vec![s("A")]);
    assert_eq!(
        c.submit_verification(s("x"), true, s("V1"), REQUIRED_DEPOSIT),
        Ok(())
    );
}

#[test]
fn check_wf_accepts_reached_states_and_rejects_corruption() {
    let mut c = Contract::new(vec![s("A")]);
    assert_eq!(c.submit_verification(s("x"), true, s("V1"), 1), Ok(()));
    assert_eq!(c.pin_verification(s("y"), false, s("A"), 1), Ok(()));
    assert!(c.check_wf());
    // a tally that claims more trusted votes than voters is rejected
    c.entries[0].sum = 5;
    assert!(!c.check_wf());
}

#[test]
fn check_wf_rejects_duplicate_identifiers() {
    let mut a = Contract::new(vec![]);
    assert_eq!(a.submit_verification(s("x"), true, s("V1"), 1), Ok(()));
    let mut b = Contract::new(vec![]);
    assert_eq!(b.submit_verification(s("x"), false, s("V2"), 1), Ok(()));
    a.entries.append(&mut b.entries);
    assert!(!a.check_wf());
}
