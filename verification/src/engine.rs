//! The migration engine.
//!
//! [`Migrations::new`] builds the catalog from the entries the host found
//! under the migrations root, parsing each ordinal once and keeping the
//! definitions sorted ascending by it. A forward run applies every migration
//! whose name the ledger does not yet hold, in that order, recording each; a
//! backward run reverses every recorded one, in the same ascending order,
//! deleting its record. (Ascending traversal for the backward run is a
//! deliberate mirror of the forward run; scripts that depend on later
//! migrations must handle their own ordering.) Errors during a run are the
//! host's to propagate: a run stops at the first failing migration and never
//! rolls back the ones already recorded.

use crate::catalog::build_catalog;
use crate::catalog::build_catalog_rec;
use crate::catalog::catalog_wf;
use crate::catalog::definition_models;
use crate::catalog::entry_models;
use crate::catalog::has_name;
use crate::catalog::lemma_stable_insert_at;
use crate::catalog::lemma_stable_insert_wf;
use crate::catalog::stable_insert;
use crate::catalog::CatalogEntry;
use crate::catalog::CatalogError;
use crate::catalog::MigrationDefinition;
use crate::catalog::MigrationModel;
use crate::ledger::Ledger;
use crate::ordinal::parse_ordinal;
use vstd::prelude::*;
use vstd::string::StringExecFns;

verus! {

/// What the engine decides for one migration of a run, once the ledger has
/// been consulted: execute a script and update the ledger, or leave the
/// migration alone.
#[derive(Debug, PartialEq, Eq)]
pub enum StepAction {
    /// Execute the script at `script_ref` as one batch, then update the
    /// ledger row for `name`: record it on a forward run, delete it on a
    /// backward run. On failure the whole run stops.
    Apply { script_ref: String, name: String },
    /// The ledger already answers for this migration: do nothing.
    Skip,
}

/// The migration catalog together with the name of the ledger table, ready
/// to run.
pub struct Migrations {
    table_name: String,
    defs: Vec<MigrationDefinition>,
}

/// A forward run over `defs` starting from ledger contents `ledger`,
/// assuming every script execution succeeds: the pair of the forward script
/// references executed, in order, and the final ledger contents. A migration
/// is applied and recorded exactly when its name is not yet in the ledger.
pub open spec fn up_run(defs: Seq<MigrationModel>, ledger: Set<Seq<char>>) -> (Seq<Seq<char>>, Set<
    Seq<char>,
>)
    decreases defs.len(),
{
    if defs.len() == 0 {
        (Seq::empty(), ledger)
    } else if ledger.contains(defs[0].name) {
        up_run(defs.drop_first(), ledger)
    } else {
        let rest = up_run(defs.drop_first(), ledger.insert(defs[0].name));
        (seq![defs[0].forward_ref] + rest.0, rest.1)
    }
}

/// A backward run over `defs` starting from ledger contents `ledger`: the
/// backward script references executed, in order, and the final ledger
/// contents. A migration is reversed and its record deleted exactly when its
/// name is in the ledger.
pub open spec fn down_run(defs: Seq<MigrationModel>, ledger: Set<Seq<char>>) -> (
    Seq<Seq<char>>,
    Set<Seq<char>>,
)
    decreases defs.len(),
{
    if defs.len() == 0 {
        (Seq::empty(), ledger)
    } else if ledger.contains(defs[0].name) {
        let rest = down_run(defs.drop_first(), ledger.remove(defs[0].name));
        (seq![defs[0].backward_ref] + rest.0, rest.1)
    } else {
        down_run(defs.drop_first(), ledger)
    }
}

impl Migrations {
    /// The ledger table name the engine was constructed with.
    pub closed spec fn spec_table_name(&self) -> Seq<char> {
        self.table_name@
    }

    /// The catalog, sorted ascending by ordinal.
    pub closed spec fn defs_view(&self) -> Seq<MigrationModel> {
        definition_models(self.defs@)
    }

    /// The catalog invariant: sorted by ordinal, names unique, every stored
    /// ordinal parsed from its name.
    pub open spec fn wf(&self) -> bool {
        catalog_wf(self.defs_view())
    }

    /// Build the catalog from the immediate entries of a migrations root.
    /// Non-container entries are skipped silently; construction is
    /// all-or-nothing, failing on the first malformed entry, exactly as
    /// [`build_catalog`] lays it out.
    pub fn new(table_name: String, entries: Vec<CatalogEntry>) -> (r: Result<
        Migrations,
        CatalogError,
    >)
        ensures
            match r {
                Ok(m) => {
                    &&& build_catalog(entry_models(entries@)) matches Ok(defs) && m.defs_view()
                        == defs
                    &&& m.spec_table_name() == table_name@
                    &&& m.wf()
                },
                Err(e) => build_catalog(entry_models(entries@)) matches Err(err) && e@ == err,
            },
    {
        let ghost all = entry_models(entries@);
        let mut defs: Vec<MigrationDefinition> = Vec::new();
        let mut idx: usize = 0;
        proof {
            assert(all.skip(0) =~= all);
            assert(definition_models(defs@) =~= Seq::<MigrationModel>::empty());
        }
        while idx < entries.len()
            invariant
                0 <= idx <= entries@.len(),
                all == entry_models(entries@),
                catalog_wf(definition_models(defs@)),
                build_catalog(all) == build_catalog_rec(
                    all.skip(idx as int),
                    definition_models(defs@),
                ),
            decreases entries@.len() - idx,
        {
            let ghost pending = all.skip(idx as int);
            let ghost acc = definition_models(defs@);
            proof {
                assert(pending.len() > 0);
                assert(pending[0] == all[idx as int]);
                assert(pending.drop_first() =~= all.skip(idx as int + 1));
            }
            let entry = &entries[idx];
            if entry.is_container {
                if !entry.has_forward {
                    return Err(CatalogError::MissingScript { location: entry.forward_ref.clone() });
                }
                if !entry.has_backward {
                    return Err(
                        CatalogError::MissingScript { location: entry.backward_ref.clone() },
                    );
                }
                match parse_ordinal(entry.name.as_str()) {
                    None => {
                        return Err(CatalogError::InvalidOrdinal { name: entry.name.clone() });
                    },
                    Some(ordinal) => {
                        if contains_name(&defs, &entry.name) {
                            return Err(CatalogError::DuplicateName { name: entry.name.clone() });
                        }
                        let def = MigrationDefinition {
                            name: entry.name.clone(),
                            ordinal,
                            forward_ref: entry.forward_ref.clone(),
                            backward_ref: entry.backward_ref.clone(),
                        };
                        proof {
                            lemma_stable_insert_wf(acc, def@);
                        }
                        insert_sorted(&mut defs, def);
                    },
                }
            }
            idx = idx + 1;
        }
        proof {
            assert(all.skip(entries@.len() as int) =~= Seq::empty());
        }
        Ok(Migrations { table_name, defs })
    }

    /// How many migrations the catalog holds.
    pub fn len(&self) -> (n: usize)
        ensures
            n == self.defs_view().len(),
    {
        self.defs.len()
    }

    /// The migration at position `i` of the ascending ordinal order.
    pub fn definition_at(&self, i: usize) -> (r: &MigrationDefinition)
        requires
            i < self.defs_view().len(),
        ensures
            r@ == self.defs_view()[i as int],
    {
        &self.defs[i]
    }

    /// The ledger table name.
    pub fn table_name(&self) -> (r: &String)
        ensures
            r@ == self.spec_table_name(),
    {
        &self.table_name
    }

    /// The statement that lazily creates the ledger table: a `name` primary
    /// key and an `executed_at` timestamp defaulting to the creation time.
    /// Idempotent by construction, so a run may always issue it first.
    pub fn create_table_sql(&self) -> (r: String)
        ensures
            r@ == "CREATE TABLE IF NOT EXISTS "@ + self.spec_table_name()
                + " ( name TEXT NOT NULL PRIMARY KEY, executed_at TIMESTAMP NOT NULL DEFAULT NOW() )"@,
    {
        let mut r = "CREATE TABLE IF NOT EXISTS ".to_owned();
        r.append(self.table_name.as_str());
        r.append(" ( name TEXT NOT NULL PRIMARY KEY, executed_at TIMESTAMP NOT NULL DEFAULT NOW() )");
        r
    }

    /// The parameterized statement that asks whether a name is recorded.
    pub fn exists_sql(&self) -> (r: String)
        ensures
            r@ == "SELECT COUNT(*) FROM "@ + self.spec_table_name() + " WHERE name = $1"@,
    {
        let mut r = "SELECT COUNT(*) FROM ".to_owned();
        r.append(self.table_name.as_str());
        r.append(" WHERE name = $1");
        r
    }

    /// The parameterized statement that records a name as applied.
    pub fn record_sql(&self) -> (r: String)
        ensures
            r@ == "INSERT INTO "@ + self.spec_table_name() + " (name) VALUES ($1)"@,
    {
        let mut r = "INSERT INTO ".to_owned();
        r.append(self.table_name.as_str());
        r.append(" (name) VALUES ($1)");
        r
    }

    /// The parameterized statement that deletes a name's record.
    pub fn unrecord_sql(&self) -> (r: String)
        ensures
            r@ == "DELETE FROM "@ + self.spec_table_name() + " WHERE name = $1"@,
    {
        let mut r = "DELETE FROM ".to_owned();
        r.append(self.table_name.as_str());
        r.append(" WHERE name = $1");
        r
    }

    /// The forward-run decision for the migration at position `i`, given the
    /// ledger's answer for its name: apply the forward script and record the
    /// name iff the name was not recorded.
    pub fn up_step(&self, i: usize, recorded: bool) -> (r: StepAction)
        requires
            i < self.defs_view().len(),
        ensures
            recorded ==> r is Skip,
            !recorded ==> (r matches StepAction::Apply { script_ref, name } && script_ref@
                == self.defs_view()[i as int].forward_ref && name@
                == self.defs_view()[i as int].name),
    {
        if recorded {
            StepAction::Skip
        } else {
            StepAction::Apply {
                script_ref: self.defs[i].forward_ref.clone(),
                name: self.defs[i].name.clone(),
            }
        }
    }

    /// The backward-run decision for the migration at position `i`, given
    /// the ledger's answer for its name: apply the backward script and delete
    /// the record iff the name was recorded.
    pub fn down_step(&self, i: usize, recorded: bool) -> (r: StepAction)
        requires
            i < self.defs_view().len(),
        ensures
            !recorded ==> r is Skip,
            recorded ==> (r matches StepAction::Apply { script_ref, name } && script_ref@
                == self.defs_view()[i as int].backward_ref && name@
                == self.defs_view()[i as int].name),
    {
        if recorded {
            StepAction::Apply {
                script_ref: self.defs[i].backward_ref.clone(),
                name: self.defs[i].name.clone(),
            }
        } else {
            StepAction::Skip
        }
    }

    /// Run the whole catalog forward against `ledger`: apply and record, in
    /// ascending ordinal order, every migration whose name is not yet
    /// recorded. Returns the forward script references executed, in order,
    /// exactly as [`up_run`] describes the run.
    pub fn up(&self, ledger: &mut Ledger) -> (executed: Vec<String>)
        requires
            self.wf(),
            old(ledger).wf(),
        ensures
            final (ledger).wf(),
            executed.deep_view() == up_run(self.defs_view(), old(ledger).contents()).0,
            final (ledger).contents() == up_run(self.defs_view(), old(ledger).contents()).1,
    {
        let ghost full = self.defs_view();
        let ghost start = old(ledger).contents();
        let mut executed: Vec<String> = Vec::new();
        let mut i: usize = 0;
        proof {
            assert(full.skip(0) =~= full);
            assert(executed.deep_view() + up_run(full, start).0 =~= up_run(full, start).0);
        }
        while i < self.defs.len()
            invariant
                0 <= i <= self.defs@.len(),
                full == self.defs_view(),
                ledger.wf(),
                up_run(full, start).0 == executed.deep_view() + up_run(
                    full.skip(i as int),
                    ledger.contents(),
                ).0,
                up_run(full, start).1 == up_run(full.skip(i as int), ledger.contents()).1,
            decreases self.defs@.len() - i,
        {
            let ghost pending = full.skip(i as int);
            let ghost before = ledger.contents();
            let ghost done = executed.deep_view();
            proof {
                assert(pending.len() > 0);
                assert(pending[0] == full[i as int]);
                assert(pending.drop_first() =~= full.skip(i as int + 1));
            }
            let recorded = ledger.contains(&self.defs[i].name);
            match self.up_step(i, recorded) {
                StepAction::Apply { script_ref, name } => {
                    executed.push(script_ref);
                    ledger.record(name);
                    proof {
                        assert(executed.deep_view() =~= done.push(pending[0].forward_ref));
                        assert(executed.deep_view() + up_run(
                            pending.drop_first(),
                            before.insert(pending[0].name),
                        ).0 =~= done + up_run(pending, before).0);
                    }
                },
                StepAction::Skip => {},
            }
            i = i + 1;
        }
        proof {
            assert(full.skip(self.defs@.len() as int) =~= Seq::empty());
            assert(executed.deep_view() + Seq::<Seq<char>>::empty() =~= executed.deep_view());
        }
        executed
    }

    /// Run the whole catalog backward against `ledger`: reverse and delete
    /// the record of, in the same ascending ordinal order, every migration
    /// whose name is recorded. Returns the backward script references
    /// executed, in order, exactly as [`down_run`] describes the run.
    pub fn down(&self, ledger: &mut Ledger) -> (executed: Vec<String>)
        requires
            self.wf(),
            old(ledger).wf(),
        ensures
            final (ledger).wf(),
            executed.deep_view() == down_run(self.defs_view(), old(ledger).contents()).0,
            final (ledger).contents() == down_run(self.defs_view(), old(ledger).contents()).1,
    {
        let ghost full = self.defs_view();
        let ghost start = old(ledger).contents();
        let mut executed: Vec<String> = Vec::new();
        let mut i: usize = 0;
        proof {
            assert(full.skip(0) =~= full);
            assert(executed.deep_view() + down_run(full, start).0 =~= down_run(full, start).0);
        }
        while i < self.defs.len()
            invariant
                0 <= i <= self.defs@.len(),
                full == self.defs_view(),
                ledger.wf(),
                down_run(full, start).0 == executed.deep_view() + down_run(
                    full.skip(i as int),
                    ledger.contents(),
                ).0,
                down_run(full, start).1 == down_run(full.skip(i as int), ledger.contents()).1,
            decreases self.defs@.len() - i,
        {
            let ghost pending = full.skip(i as int);
            let ghost before = ledger.contents();
            let ghost done = executed.deep_view();
            proof {
                assert(pending.len() > 0);
                assert(pending[0] == full[i as int]);
                assert(pending.drop_first() =~= full.skip(i as int + 1));
            }
            let recorded = ledger.contains(&self.defs[i].name);
            match self.down_step(i, recorded) {
                StepAction::Apply { script_ref, name } => {
                    executed.push(script_ref);
                    ledger.unrecord(&name);
                    proof {
                        assert(executed.deep_view() =~= done.push(pending[0].backward_ref));
                        assert(executed.deep_view() + down_run(
                            pending.drop_first(),
                            before.remove(pending[0].name),
                        ).0 =~= done + down_run(pending, before).0);
                    }
                },
                StepAction::Skip => {},
            }
            i = i + 1;
        }
        proof {
            assert(full.skip(self.defs@.len() as int) =~= Seq::empty());
            assert(executed.deep_view() + Seq::<Seq<char>>::empty() =~= executed.deep_view());
        }
        executed
    }
}

/// The ledger's presence test, from the row count a host's existence query
/// returned: a name is recorded iff at least one row carries it.
pub fn recorded_from_count(count: i64) -> (r: bool)
    ensures
        r == (count > 0),
{
    count > 0
}

/// True iff some definition in `defs` carries the name `name`.
fn contains_name(defs: &Vec<MigrationDefinition>, name: &String) -> (r: bool)
    ensures
        r == has_name(definition_models(defs@), name@),
{
    let mut i: usize = 0;
    while i < defs.len()
        invariant
            0 <= i <= defs@.len(),
            forall|k: int| 0 <= k < i ==> (#[trigger] defs@[k])@.name != name@,
        decreases defs@.len() - i,
    {
        if defs[i].name == *name {
            proof {
                assert(definition_models(defs@)[i as int].name == name@);
            }
            return true;
        }
        i = i + 1;
    }
    proof {
        assert forall|k: int| 0 <= k < definition_models(defs@).len() implies (
        #[trigger] definition_models(defs@)[k]).name != name@ by {
            assert(definition_models(defs@)[k] == defs@[k]@);
        }
    }
    false
}

/// Insert `def` into the sorted catalog before the first definition with a
/// strictly greater ordinal.
fn insert_sorted(defs: &mut Vec<MigrationDefinition>, def: MigrationDefinition)
    requires
        catalog_wf(definition_models(old(defs)@)),
    ensures
        definition_models(final (defs)@) == stable_insert(definition_models(old(defs)@), def@),
{
    let mut j: usize = 0;
    while j < defs.len() && defs[j].ordinal <= def.ordinal
        invariant
            0 <= j <= defs@.len(),
            defs@ == old(defs)@,
            forall|k: int| 0 <= k < j ==> (#[trigger] defs@[k])@.ordinal <= def@.ordinal,
        decreases defs@.len() - j,
    {
        j = j + 1;
    }
    let ghost before = definition_models(defs@);
    proof {
        assert(forall|k: int| 0 <= k < j ==> (#[trigger] before[k]).ordinal <= def@.ordinal);
        assert(j < before.len() ==> before[j as int].ordinal > def@.ordinal);
        lemma_stable_insert_at(before, def@, j as int);
    }
    defs.insert(j, def);
    proof {
        assert(definition_models(defs@) =~= before.insert(j as int, def@));
    }
}

} // verus!
