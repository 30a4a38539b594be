use schema_migrations::catalog::CatalogEntry;
use schema_migrations::catalog::CatalogError;
use schema_migrations::engine::Migrations;
use schema_migrations::engine::StepAction;
use schema_migrations::ledger::Ledger;

fn entry(name: &str) -> CatalogEntry {
    CatalogEntry {
        name: name.to_string(),
        is_container: true,
        has_forward: true,
        has_backward: true,
        forward_ref: format!("migrations/{name}/up.sql"),
        backward_ref: format!("migrations/{name}/down.sql"),
    }
}

fn names_in_order(m: &Migrations) -> Vec<String> {
    let mut names = Vec::new();
    let mut i = 0;
    while i < m.len() {
        names.push(m.definition_at(i).name.clone());
        i += 1;
    }
    names
}

#[test]
fn numeric_ordering() {
    let m = Migrations::new(
        "version_info".to_string(),
        vec![entry("10_c"), entry("1_a"), entry("2_b")],
    )
    .unwrap();
    let names = names_in_order(&m);
    assert_eq!(names, vec!["1_a", "2_b", "10_c"]);
    // a naive lexical sort would misorder these
    assert_ne!(names, vec!["1_a", "10_c", "2_b"]);
}

#[test]
fn ordering_keeps_input_order_on_equal_ordinals() {
    let m = Migrations::new(
        "version_info".to_string(),
        vec![entry("2_b"), entry("02_a"), entry("1_z")],
    )
    .unwrap();
    assert_eq!(names_in_order(&m), vec!["1_z", "2_b", "02_a"]);
}

#[test]
fn all_or_nothing_discovery() {
    let mut broken = entry("2_bad");
    broken.has_backward = false;
    let r = Migrations::new("version_info".to_string(), vec![entry("1_init"), broken]);
    assert_eq!(
        r.err().unwrap(),
        CatalogError::MissingScript {
            location: "migrations/2_bad/down.sql".to_string(),
        }
    );
}

#[test]
fn missing_forward_script_is_an_error() {
    let mut broken = entry("1_x");
    broken.has_forward = false;
    let r = Migrations::new("version_info".to_string(), vec![broken]);
    let e = r.err().unwrap();
    assert_eq!(
        e,
        CatalogError::MissingScript {
            location: "migrations/1_x/up.sql".to_string(),
        }
    );
    assert_eq!(e.message(), "'migrations/1_x/up.sql' not found");
}

#[test]
fn invalid_ordinal_is_an_error() {
    let r = Migrations::new("version_info".to_string(), vec![entry("abc_x")]);
    let e = r.err().unwrap();
    assert_eq!(
        e,
        CatalogError::InvalidOrdinal {
            name: "abc_x".to_string(),
        }
    );
    assert_eq!(
        e.message(),
        "migration name 'abc_x' has no numeric ordinal prefix"
    );
}

#[test]
fn duplicate_name_is_an_error() {
    let r = Migrations::new(
        "version_info".to_string(),
        vec![entry("1_a"), entry("1_a")],
    );
    let e = r.err().unwrap();
    assert_eq!(
        e,
        CatalogError::DuplicateName {
            name: "1_a".to_string(),
        }
    );
    assert_eq!(e.message(), "duplicate migration name '1_a'");
}

#[test]
fn first_malformed_entry_wins() {
    let mut broken = entry("2_bad");
    broken.has_backward = false;
    let r = Migrations::new(
        "version_info".to_string(),
        vec![entry("abc_x"), broken],
    );
    assert_eq!(
        r.err().unwrap(),
        CatalogError::InvalidOrdinal {
            name: "abc_x".to_string(),
        }
    );
}

#[test]
fn non_containers_are_skipped_silently() {
    let mut readme = entry("not a migration");
    readme.is_container = false;
    readme.has_forward = false;
    readme.has_backward = false;
    let m = Migrations::new("version_info".to_string(), vec![readme, entry("1_a")]).unwrap();
    assert_eq!(names_in_order(&m), vec!["1_a"]);
}

#[test]
fn up_applies_missing_migrations_in_order() {
    let m = Migrations::new(
        "version_info".to_string(),
        vec![entry("10_c"), entry("1_a"), entry("2_b")],
    )
    .unwrap();
    let mut ledger = Ledger::new();
    let executed = m.up(&mut ledger);
    assert_eq!(
        executed,
        vec![
            "migrations/1_a/up.sql".to_string(),
            "migrations/2_b/up.sql".to_string(),
            "migrations/10_c/up.sql".to_string(),
        ]
    );
    assert!(ledger.contains(&"1_a".to_string()));
    assert!(ledger.contains(&"2_b".to_string()));
    assert!(ledger.contains(&"10_c".to_string()));
}

#[test]
fn up_twice_is_idempotent() {
    let m = Migrations::new(
        "version_info".to_string(),
        vec![entry("1_init"), entry("2_add_column")],
    )
    .unwrap();
    let mut ledger = Ledger::new();
    let first = m.up(&mut ledger);
    assert_eq!(first.len(), 2);
    let second = m.up(&mut ledger);
    assert_eq!(second, Vec::<String>::new());
    assert!(ledger.contains(&"1_init".to_string()));
    assert!(ledger.contains(&"2_add_column".to_string()));
}

#[test]
fn ledger_round_trip() {
    let m = Migrations::new("version_info".to_string(), vec![entry("1_init")]).unwrap();
    let mut ledger = Ledger::new();
    let executed = m.up(&mut ledger);
    assert_eq!(executed, vec!["migrations/1_init/up.sql".to_string()]);
    assert!(ledger.contains(&"1_init".to_string()));
    let reversed = m.down(&mut ledger);
    assert_eq!(reversed, vec!["migrations/1_init/down.sql".to_string()]);
    assert!(!ledger.contains(&"1_init".to_string()));
}

#[test]
fn partial_failure_resumption() {
    let m = Migrations::new(
        "version_info".to_string(),
        vec![entry("1_init"), entry("2_add_column")],
    )
    .unwrap();
    let mut ledger = Ledger::new();

    // A host drives the run step by step. The first migration succeeds and
    // is recorded.
    let recorded = ledger.contains(&m.definition_at(0).name);
    match m.up_step(0, recorded) {
        StepAction::Apply { script_ref, name } => {
            assert_eq!(script_ref, "migrations/1_init/up.sql");
            ledger.record(name);
        }
        StepAction::Skip => panic!("first migration must be applied"),
    }
    // The second migration's script fails: the run stops, nothing recorded.
    let recorded = ledger.contains(&m.definition_at(1).name);
    match m.up_step(1, recorded) {
        StepAction::Apply { script_ref, .. } => {
            assert_eq!(script_ref, "migrations/2_add_column/up.sql");
            // the script's execution failed; its name is not recorded
        }
        StepAction::Skip => panic!("second migration must be attempted"),
    }
    assert!(ledger.contains(&"1_init".to_string()));
    assert!(!ledger.contains(&"2_add_column".to_string()));

    // A later run attempts only the migration that was never recorded.
    let resumed = m.up(&mut ledger);
    assert_eq!(resumed, vec!["migrations/2_add_column/up.sql".to_string()]);
    assert!(ledger.contains(&"2_add_column".to_string()));
}

#[test]
fn down_on_fresh_ledger_is_a_noop() {
    let m = Migrations::new(
        "version_info".to_string(),
        vec![entry("1_init"), entry("2_add_column")],
    )
    .unwrap();
    let mut ledger = Ledger::new();
    let reversed = m.down(&mut ledger);
    assert_eq!(reversed, Vec::<String>::new());
    assert!(!ledger.contains(&"1_init".to_string()));
}

#[test]
fn down_reverses_in_ascending_order() {
    let m = Migrations::new(
        "version_info".to_string(),
        vec![entry("2_b"), entry("1_a")],
    )
    .unwrap();
    let mut ledger = Ledger::new();
    m.up(&mut ledger);
    let reversed = m.down(&mut ledger);
    assert_eq!(
        reversed,
        vec![
            "migrations/1_a/down.sql".to_string(),
            "migrations/2_b/down.sql".to_string(),
        ]
    );
}

#[test]
fn up_step_skips_recorded_migrations() {
    let m = Migrations::new("version_info".to_string(), vec![entry("1_a")]).unwrap();
    assert_eq!(m.up_step(0, true), StepAction::Skip);
    assert_eq!(
        m.up_step(0, false),
        StepAction::Apply {
            script_ref: "migrations/1_a/up.sql".to_string(),
            name: "1_a".to_string(),
        }
    );
}

#[test]
fn down_step_skips_unrecorded_migrations() {
    let m = Migrations::new("version_info".to_string(), vec![entry("1_a")]).unwrap();
    assert_eq!(m.down_step(0, false), StepAction::Skip);
    assert_eq!(
        m.down_step(0, true),
        StepAction::Apply {
            script_ref: "migrations/1_a/down.sql".to_string(),
            name: "1_a".to_string(),
        }
    );
}

#[test]
fn statement_builders_name_the_table() {
    let m = Migrations::new("version_info".to_string(), Vec::new()).unwrap();
    assert_eq!(m.table_name().as_str(), "version_info");
    assert_eq!(
        m.create_table_sql(),
        "CREATE TABLE IF NOT EXISTS version_info ( name TEXT NOT NULL PRIMARY KEY, executed_at TIMESTAMP NOT NULL DEFAULT NOW() )"
    );
    assert_eq!(
        m.exists_sql(),
        "SELECT COUNT(*) FROM version_info WHERE name = $1"
    );
    assert_eq!(m.record_sql(), "INSERT INTO version_info (name) VALUES ($1)");
    assert_eq!(m.unrecord_sql(), "DELETE FROM version_info WHERE name = $1");
}

#[test]
fn a_positive_row_count_means_recorded() {
    assert!(schema_migrations::engine::recorded_from_count(1));
    assert!(schema_migrations::engine::recorded_from_count(42));
    assert!(!schema_migrations::engine::recorded_from_count(0));
    assert!(!schema_migrations::engine::recorded_from_count(-1));
}

#[test]
fn empty_catalog_runs_do_nothing() {
    let m = Migrations::new("version_info".to_string(), Vec::new()).unwrap();
    assert_eq!(m.len(), 0);
    let mut ledger = Ledger::new();
    assert_eq!(m.up(&mut ledger), Vec::<String>::new());
    assert_eq!(m.down(&mut ledger), Vec::<String>::new());
}
