//! The migration catalog: definitions discovered under a migrations root.
//!
//! The host enumerates the immediate entries of the root and hands them over
//! as plain values: each entry's name, whether it is a container, whether the
//! forward and backward script artifacts are present, and where they live.
//! Building the catalog from those entries is all-or-nothing: a single
//! malformed entry fails the whole construction.

use crate::ordinal::spec_ordinal;
use vstd::prelude::*;
use vstd::string::StringExecFns;

verus! {

/// One immediate entry of the migrations root, as the host found it on disk.
pub struct CatalogEntry {
    /// The entry's own name; for a container it becomes the migration name.
    pub name: String,
    /// True when the entry can hold the two script artifacts; other entries
    /// are skipped silently.
    pub is_container: bool,
    /// True when the forward script artifact is present.
    pub has_forward: bool,
    /// True when the backward script artifact is present.
    pub has_backward: bool,
    /// Location of the forward script artifact.
    pub forward_ref: String,
    /// Location of the backward script artifact.
    pub backward_ref: String,
}

/// Mathematical model of a [`CatalogEntry`].
pub struct EntryModel {
    pub name: Seq<char>,
    pub is_container: bool,
    pub has_forward: bool,
    pub has_backward: bool,
    pub forward_ref: Seq<char>,
    pub backward_ref: Seq<char>,
}

impl View for CatalogEntry {
    type V = EntryModel;

    open spec fn view(&self) -> EntryModel {
        EntryModel {
            name: self.name@,
            is_container: self.is_container,
            has_forward: self.has_forward,
            has_backward: self.has_backward,
            forward_ref: self.forward_ref@,
            backward_ref: self.backward_ref@,
        }
    }
}

/// A migration: a name, the ordinal parsed from it once at construction, and
/// the two script references.
pub struct MigrationDefinition {
    /// The migration name, of the form `<ordinal>_<slug>`.
    pub name: String,
    /// The numeric ordering key parsed from the name's prefix.
    pub ordinal: u64,
    /// Location of the script that applies the migration.
    pub forward_ref: String,
    /// Location of the script that reverses the migration.
    pub backward_ref: String,
}

/// Mathematical model of a [`MigrationDefinition`].
pub struct MigrationModel {
    pub name: Seq<char>,
    pub ordinal: u64,
    pub forward_ref: Seq<char>,
    pub backward_ref: Seq<char>,
}

impl View for MigrationDefinition {
    type V = MigrationModel;

    open spec fn view(&self) -> MigrationModel {
        MigrationModel {
            name: self.name@,
            ordinal: self.ordinal,
            forward_ref: self.forward_ref@,
            backward_ref: self.backward_ref@,
        }
    }
}

/// Why a catalog could not be built.
#[derive(Debug, PartialEq, Eq)]
pub enum CatalogError {
    /// A container entry lacks one of its two script artifacts; `location`
    /// is where the missing artifact was expected.
    MissingScript { location: String },
    /// A container entry's name has no parseable numeric ordinal prefix.
    InvalidOrdinal { name: String },
    /// Two container entries share a name.
    DuplicateName { name: String },
}

/// Mathematical model of a [`CatalogError`].
pub enum CatalogErrorModel {
    MissingScript { location: Seq<char> },
    InvalidOrdinal { name: Seq<char> },
    DuplicateName { name: Seq<char> },
}

impl View for CatalogError {
    type V = CatalogErrorModel;

    open spec fn view(&self) -> CatalogErrorModel {
        match self {
            CatalogError::MissingScript { location } => CatalogErrorModel::MissingScript {
                location: location@,
            },
            CatalogError::InvalidOrdinal { name } => CatalogErrorModel::InvalidOrdinal {
                name: name@,
            },
            CatalogError::DuplicateName { name } => CatalogErrorModel::DuplicateName {
                name: name@,
            },
        }
    }
}

impl CatalogError {
    /// What [`message`](Self::message) returns.
    pub open spec fn spec_message(&self) -> Seq<char> {
        match self {
            CatalogError::MissingScript { location } => "'"@ + location@ + "' not found"@,
            CatalogError::InvalidOrdinal { name } => "migration name '"@ + name@
                + "' has no numeric ordinal prefix"@,
            CatalogError::DuplicateName { name } => "duplicate migration name '"@ + name@ + "'"@,
        }
    }

    /// A human-readable description of the error.
    pub fn message(&self) -> (r: String)
        ensures
            r@ == self.spec_message(),
    {
        match self {
            CatalogError::MissingScript { location } => {
                let mut r = "'".to_owned();
                r.append(location.as_str());
                r.append("' not found");
                r
            },
            CatalogError::InvalidOrdinal { name } => {
                let mut r = "migration name '".to_owned();
                r.append(name.as_str());
                r.append("' has no numeric ordinal prefix");
                r
            },
            CatalogError::DuplicateName { name } => {
                let mut r = "duplicate migration name '".to_owned();
                r.append(name.as_str());
                r.append("'");
                r
            },
        }
    }
}

/// The models of a sequence of entries.
pub open spec fn entry_models(entries: Seq<CatalogEntry>) -> Seq<EntryModel> {
    entries.map_values(|e: CatalogEntry| e@)
}

/// The models of a sequence of definitions.
pub open spec fn definition_models(defs: Seq<MigrationDefinition>) -> Seq<MigrationModel> {
    defs.map_values(|d: MigrationDefinition| d@)
}

/// True when some definition in `defs` carries the name `n`.
pub open spec fn has_name(defs: Seq<MigrationModel>, n: Seq<char>) -> bool {
    exists|i: int| 0 <= i < defs.len() && (#[trigger] defs[i]).name == n
}

/// Ordinals never decrease along `defs`.
pub open spec fn sorted_by_ordinal(defs: Seq<MigrationModel>) -> bool {
    forall|i: int, j: int|
        #![trigger defs[i], defs[j]]
        0 <= i < j < defs.len() ==> defs[i].ordinal <= defs[j].ordinal
}

/// No two definitions in `defs` share a name.
pub open spec fn unique_names(defs: Seq<MigrationModel>) -> bool {
    forall|i: int, j: int|
        #![trigger defs[i], defs[j]]
        0 <= i < defs.len() && 0 <= j < defs.len() && i != j ==> defs[i].name != defs[j].name
}

/// Each definition's stored ordinal is the one its name encodes.
pub open spec fn ordinals_match(defs: Seq<MigrationModel>) -> bool {
    forall|i: int|
        0 <= i < defs.len() ==> spec_ordinal((#[trigger] defs[i]).name) == Some(defs[i].ordinal)
}

/// A well-formed catalog: sorted ascending by ordinal, names unique, and
/// every stored ordinal parsed from its name.
pub open spec fn catalog_wf(defs: Seq<MigrationModel>) -> bool {
    &&& sorted_by_ordinal(defs)
    &&& unique_names(defs)
    &&& ordinals_match(defs)
}

/// Insert `m` before the first definition with a strictly greater ordinal:
/// the insertion step of a stable ascending sort.
pub open spec fn stable_insert(defs: Seq<MigrationModel>, m: MigrationModel) -> Seq<MigrationModel>
    decreases defs.len(),
{
    if defs.len() == 0 {
        seq![m]
    } else if defs[0].ordinal <= m.ordinal {
        seq![defs[0]] + stable_insert(defs.drop_first(), m)
    } else {
        seq![m] + defs
    }
}

/// Build the catalog from the entries, left to right, failing on the first
/// malformed entry. `acc` holds the definitions gathered so far, kept sorted.
pub open spec fn build_catalog_rec(
    entries: Seq<EntryModel>,
    acc: Seq<MigrationModel>,
) -> Result<Seq<MigrationModel>, CatalogErrorModel>
    decreases entries.len(),
{
    if entries.len() == 0 {
        Ok(acc)
    } else {
        let e = entries[0];
        if !e.is_container {
            build_catalog_rec(entries.drop_first(), acc)
        } else if !e.has_forward {
            Err(CatalogErrorModel::MissingScript { location: e.forward_ref })
        } else if !e.has_backward {
            Err(CatalogErrorModel::MissingScript { location: e.backward_ref })
        } else {
            match spec_ordinal(e.name) {
                None => Err(CatalogErrorModel::InvalidOrdinal { name: e.name }),
                Some(ord) => {
                    if has_name(acc, e.name) {
                        Err(CatalogErrorModel::DuplicateName { name: e.name })
                    } else {
                        build_catalog_rec(
                            entries.drop_first(),
                            stable_insert(
                                acc,
                                MigrationModel {
                                    name: e.name,
                                    ordinal: ord,
                                    forward_ref: e.forward_ref,
                                    backward_ref: e.backward_ref,
                                },
                            ),
                        )
                    }
                },
            }
        }
    }
}

/// The catalog that a sequence of root entries describes, or the first error.
pub open spec fn build_catalog(entries: Seq<EntryModel>) -> Result<
    Seq<MigrationModel>,
    CatalogErrorModel,
> {
    build_catalog_rec(entries, Seq::empty())
}

/// What [`stable_insert`] does: it keeps the sequence sorted, adds exactly
/// the new definition, and preserves the catalog's invariants.
pub proof fn lemma_stable_insert(defs: Seq<MigrationModel>, m: MigrationModel)
    requires
        sorted_by_ordinal(defs),
    ensures
        stable_insert(defs, m).len() == defs.len() + 1,
        sorted_by_ordinal(stable_insert(defs, m)),
        forall|k: int|
            0 <= k < stable_insert(defs, m).len() ==> (#[trigger] stable_insert(defs, m)[k]) == m
                || defs.contains(stable_insert(defs, m)[k]),
        forall|n: Seq<char>| #[trigger]
            has_name(stable_insert(defs, m), n) <==> has_name(defs, n) || n == m.name,
    decreases defs.len(),
{
    let r = stable_insert(defs, m);
    if defs.len() == 0 {
        assert forall|n: Seq<char>| #[trigger]
            has_name(r, n) <==> has_name(defs, n) || n == m.name by {
            if n == m.name {
                assert(r[0].name == n);
            }
        }
    } else if defs[0].ordinal <= m.ordinal {
        let rest = defs.drop_first();
        assert(sorted_by_ordinal(rest)) by {
            assert(forall|i: int| 0 <= i < rest.len() ==> (#[trigger] rest[i]) == defs[i + 1]);
        }
        lemma_stable_insert(rest, m);
        let rr = stable_insert(rest, m);
        assert(r == seq![defs[0]] + rr);
        assert forall|k: int| 0 <= k < r.len() implies (#[trigger] r[k]) == m || defs.contains(
            r[k],
        ) by {
            if k == 0 {
                assert(defs.contains(defs[0]));
            } else {
                assert(r[k] == rr[k - 1]);
                if rr[k - 1] != m {
                    assert(rest.contains(rr[k - 1]));
                    let w = choose|w: int| 0 <= w < rest.len() && rest[w] == rr[k - 1];
                    assert(defs[w + 1] == rest[w]);
                }
            }
        }
        assert(sorted_by_ordinal(r)) by {
            assert forall|i: int, j: int|
                #![trigger r[i], r[j]]
                0 <= i < j < r.len() implies r[i].ordinal <= r[j].ordinal by {
                if i == 0 {
                    assert(r[j] == rr[j - 1]);
                    if rr[j - 1] == m {
                    } else {
                        assert(rest.contains(rr[j - 1]));
                        let w = choose|w: int| 0 <= w < rest.len() && rest[w] == rr[j - 1];
                        assert(defs[w + 1] == rest[w]);
                        assert(defs[0].ordinal <= defs[w + 1].ordinal);
                    }
                } else {
                    assert(r[i] == rr[i - 1] && r[j] == rr[j - 1]);
                }
            }
        }
        assert forall|n: Seq<char>| #[trigger]
            has_name(r, n) <==> has_name(defs, n) || n == m.name by {
            if has_name(r, n) {
                let w = choose|w: int| 0 <= w < r.len() && r[w].name == n;
                if w == 0 {
                    assert(defs[0].name == n);
                } else {
                    assert(rr[w - 1].name == n);
                    assert(has_name(rr, n));
                    if has_name(rest, n) {
                        let v = choose|v: int| 0 <= v < rest.len() && rest[v].name == n;
                        assert(defs[v + 1].name == n);
                    }
                }
            }
            if has_name(defs, n) {
                let w = choose|w: int| 0 <= w < defs.len() && defs[w].name == n;
                if w == 0 {
                    assert(r[0].name == n);
                } else {
                    assert(rest[w - 1].name == n);
                    assert(has_name(rest, n));
                    assert(has_name(rr, n));
                    let v = choose|v: int| 0 <= v < rr.len() && rr[v].name == n;
                    assert(r[v + 1].name == n);
                }
            }
            if n == m.name {
                assert(has_name(rr, n));
                let v = choose|v: int| 0 <= v < rr.len() && rr[v].name == n;
                assert(r[v + 1].name == n);
            }
        }
    } else {
        assert(r == seq![m] + defs);
        assert forall|k: int| 0 <= k < r.len() implies (#[trigger] r[k]) == m || defs.contains(
            r[k],
        ) by {
            if k > 0 {
                assert(r[k] == defs[k - 1]);
                assert(defs.contains(defs[k - 1]));
            }
        }
        assert(sorted_by_ordinal(r)) by {
            assert forall|i: int, j: int|
                #![trigger r[i], r[j]]
                0 <= i < j < r.len() implies r[i].ordinal <= r[j].ordinal by {
                if i == 0 {
                    assert(r[j] == defs[j - 1]);
                    if j - 1 > 0 {
                        assert(defs[0].ordinal <= defs[j - 1].ordinal);
                    }
                } else {
                    assert(r[i] == defs[i - 1] && r[j] == defs[j - 1]);
                }
            }
        }
        assert forall|n: Seq<char>| #[trigger]
            has_name(r, n) <==> has_name(defs, n) || n == m.name by {
            if has_name(r, n) {
                let w = choose|w: int| 0 <= w < r.len() && r[w].name == n;
                if w > 0 {
                    assert(defs[w - 1].name == n);
                }
            }
            if has_name(defs, n) {
                let w = choose|w: int| 0 <= w < defs.len() && defs[w].name == n;
                assert(r[w + 1].name == n);
            }
            if n == m.name {
                assert(r[0].name == n);
            }
        }
    }
}

/// [`stable_insert`] preserves name uniqueness when the new name is fresh,
/// and ordinal fidelity when the new ordinal is parsed from its name.
pub proof fn lemma_stable_insert_wf(defs: Seq<MigrationModel>, m: MigrationModel)
    requires
        catalog_wf(defs),
        !has_name(defs, m.name),
        spec_ordinal(m.name) == Some(m.ordinal),
    ensures
        catalog_wf(stable_insert(defs, m)),
    decreases defs.len(),
{
    lemma_stable_insert(defs, m);
    let r = stable_insert(defs, m);
    assert forall|i: int| 0 <= i < r.len() implies spec_ordinal((#[trigger] r[i]).name) == Some(
        r[i].ordinal,
    ) by {
        if r[i] != m {
            assert(defs.contains(r[i]));
            let w = choose|w: int| 0 <= w < defs.len() && defs[w] == r[i];
            assert(spec_ordinal(defs[w].name) == Some(defs[w].ordinal));
        }
    }
    if defs.len() == 0 {
        assert(unique_names(r));
    } else if defs[0].ordinal <= m.ordinal {
        let rest = defs.drop_first();
        assert(forall|k: int| 0 <= k < rest.len() ==> (#[trigger] rest[k]) == defs[k + 1]);
        assert(catalog_wf(rest));
        assert(!has_name(rest, m.name)) by {
            if has_name(rest, m.name) {
                let v = choose|v: int| 0 <= v < rest.len() && rest[v].name == m.name;
                assert(defs[v + 1].name == m.name);
            }
        }
        lemma_stable_insert_wf(rest, m);
        lemma_stable_insert(rest, m);
        let rr = stable_insert(rest, m);
        assert(r == seq![defs[0]] + rr);
        assert(!has_name(rr, defs[0].name)) by {
            if has_name(rest, defs[0].name) {
                let v = choose|v: int| 0 <= v < rest.len() && rest[v].name == defs[0].name;
                assert(defs[v + 1].name == defs[0].name);
                assert(defs[v + 1].name != defs[0].name);
            }
            if defs[0].name == m.name {
                assert(has_name(defs, m.name));
            }
        }
        assert forall|i: int, j: int|
            #![trigger r[i], r[j]]
            0 <= i < r.len() && 0 <= j < r.len() && i != j implies r[i].name != r[j].name by {
            if i == 0 && r[0].name == r[j].name {
                assert(rr[j - 1].name == defs[0].name);
                assert(has_name(rr, defs[0].name));
            } else if j == 0 && r[i].name == r[0].name {
                assert(rr[i - 1].name == defs[0].name);
                assert(has_name(rr, defs[0].name));
            } else if i > 0 && j > 0 {
                assert(r[i] == rr[i - 1] && r[j] == rr[j - 1]);
            }
        }
    } else {
        assert(r == seq![m] + defs);
        assert forall|i: int, j: int|
            #![trigger r[i], r[j]]
            0 <= i < r.len() && 0 <= j < r.len() && i != j implies r[i].name != r[j].name by {
            if i == 0 && r[0].name == r[j].name {
                assert(defs[j - 1].name == m.name);
                assert(has_name(defs, m.name));
            } else if j == 0 && r[i].name == r[0].name {
                assert(defs[i - 1].name == m.name);
                assert(has_name(defs, m.name));
            } else if i > 0 && j > 0 {
                assert(r[i] == defs[i - 1] && r[j] == defs[j - 1]);
            }
        }
    }
}

/// [`stable_insert`] places `m` at the position an insertion scan finds: the
/// first index whose ordinal exceeds `m`'s.
pub proof fn lemma_stable_insert_at(defs: Seq<MigrationModel>, m: MigrationModel, j: int)
    requires
        sorted_by_ordinal(defs),
        0 <= j <= defs.len(),
        forall|k: int| 0 <= k < j ==> (#[trigger] defs[k]).ordinal <= m.ordinal,
        j < defs.len() ==> defs[j].ordinal > m.ordinal,
    ensures
        stable_insert(defs, m) == defs.insert(j, m),
    decreases defs.len(),
{
    if defs.len() == 0 {
        assert(stable_insert(defs, m) =~= defs.insert(0, m));
    } else if j == 0 {
        assert(stable_insert(defs, m) =~= defs.insert(0, m));
    } else {
        let rest = defs.drop_first();
        assert(sorted_by_ordinal(rest)) by {
            assert(forall|i: int| 0 <= i < rest.len() ==> (#[trigger] rest[i]) == defs[i + 1]);
        }
        assert(forall|k: int| 0 <= k < j - 1 ==> (#[trigger] rest[k]).ordinal <= m.ordinal) by {
            assert(forall|k: int| 0 <= k < rest.len() ==> (#[trigger] rest[k]) == defs[k + 1]);
        }
        assert(j - 1 < rest.len() ==> rest[j - 1].ordinal > m.ordinal);
        lemma_stable_insert_at(rest, m, j - 1);
        assert(stable_insert(defs, m) == seq![defs[0]] + rest.insert(j - 1, m));
        assert(seq![defs[0]] + rest.insert(j - 1, m) =~= defs.insert(j, m));
    }
}

} // verus!
