use schema_migrations::ledger::Ledger;

#[test]
fn a_fresh_ledger_is_empty() {
    let ledger = Ledger::new();
    assert!(!ledger.contains(&"1_init".to_string()));
}

#[test]
fn recording_makes_a_name_present() {
    let mut ledger = Ledger::new();
    ledger.record("1_init".to_string());
    assert!(ledger.contains(&"1_init".to_string()));
    assert!(!ledger.contains(&"2_add_column".to_string()));
}

#[test]
fn unrecording_removes_only_the_named_row() {
    let mut ledger = Ledger::new();
    ledger.record("1_init".to_string());
    ledger.record("2_add_column".to_string());
    ledger.unrecord(&"1_init".to_string());
    assert!(!ledger.contains(&"1_init".to_string()));
    assert!(ledger.contains(&"2_add_column".to_string()));
}

#[test]
fn unrecording_an_absent_name_changes_nothing() {
    let mut ledger = Ledger::new();
    ledger.record("1_init".to_string());
    ledger.unrecord(&"9_missing".to_string());
    assert!(ledger.contains(&"1_init".to_string()));
}
