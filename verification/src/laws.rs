//! Laws of the engine's runs.
//!
//! These proof functions state, over the run models of [`crate::engine`],
//! what a host may rely on: a forward run records every catalog name and a
//! repeated forward run does nothing; a run executes exactly the scripts
//! that the ledger's contents call for, in catalog order; a backward run
//! removes every catalog name, and against an empty ledger deletes nothing.

use crate::catalog::has_name;
use crate::catalog::unique_names;
use crate::catalog::MigrationModel;
use crate::engine::down_run;
use crate::engine::up_run;
use vstd::prelude::*;

verus! {

/// The set of names the catalog holds.
pub open spec fn name_set(defs: Seq<MigrationModel>) -> Set<Seq<char>> {
    Set::new(|n: Seq<char>| has_name(defs, n))
}

/// Law: a forward run leaves the ledger holding exactly its previous
/// contents together with every catalog name.
pub proof fn lemma_up_final_ledger(defs: Seq<MigrationModel>, ledger: Set<Seq<char>>)
    ensures
        up_run(defs, ledger).1 == ledger.union(name_set(defs)),
    decreases defs.len(),
{
    if defs.len() == 0 {
        assert(up_run(defs, ledger).1 =~= ledger.union(name_set(defs)));
    } else {
        let rest = defs.drop_first();
        assert(forall|k: int| 0 <= k < rest.len() ==> (#[trigger] rest[k]) == defs[k + 1]);
        assert forall|n: Seq<char>| #[trigger]
            name_set(defs).contains(n) <==> name_set(rest).contains(n) || n == defs[0].name by {
            if has_name(defs, n) {
                let w = choose|w: int| 0 <= w < defs.len() && (#[trigger] defs[w]).name == n;
                if w > 0 {
                    assert(rest[w - 1].name == n);
                }
            }
            if has_name(rest, n) {
                let w = choose|w: int| 0 <= w < rest.len() && (#[trigger] rest[w]).name == n;
                assert(defs[w + 1].name == n);
            }
            if n == defs[0].name {
                assert(has_name(defs, n));
            }
        }
        if ledger.contains(defs[0].name) {
            lemma_up_final_ledger(rest, ledger);
            assert(ledger.union(name_set(rest)) =~= ledger.union(name_set(defs)));
        } else {
            lemma_up_final_ledger(rest, ledger.insert(defs[0].name));
            assert(ledger.insert(defs[0].name).union(name_set(rest)) =~= ledger.union(
                name_set(defs),
            ));
        }
    }
}

/// A forward run over a ledger that already holds every catalog name
/// executes nothing and changes nothing.
pub proof fn lemma_up_nothing_pending(defs: Seq<MigrationModel>, ledger: Set<Seq<char>>)
    requires
        forall|i: int| 0 <= i < defs.len() ==> ledger.contains((#[trigger] defs[i]).name),
    ensures
        up_run(defs, ledger).0 == Seq::<Seq<char>>::empty(),
        up_run(defs, ledger).1 == ledger,
    decreases defs.len(),
{
    if defs.len() > 0 {
        let rest = defs.drop_first();
        assert(forall|k: int| 0 <= k < rest.len() ==> (#[trigger] rest[k]) == defs[k + 1]);
        lemma_up_nothing_pending(rest, ledger);
    }
}

/// Law (idempotence): running the catalog forward twice in succession is
/// the same as running it once — the second run executes zero scripts and
/// leaves the ledger exactly as the first run left it.
pub proof fn lemma_up_idempotent(defs: Seq<MigrationModel>, ledger: Set<Seq<char>>)
    ensures
        up_run(defs, up_run(defs, ledger).1).0 == Seq::<Seq<char>>::empty(),
        up_run(defs, up_run(defs, ledger).1).1 == up_run(defs, ledger).1,
{
    lemma_up_final_ledger(defs, ledger);
    let after = up_run(defs, ledger).1;
    assert forall|i: int| 0 <= i < defs.len() implies after.contains(
        (#[trigger] defs[i]).name,
    ) by {
        assert(has_name(defs, defs[i].name));
        assert(name_set(defs).contains(defs[i].name));
    }
    lemma_up_nothing_pending(defs, after);
}

/// Law: a backward run leaves the ledger holding exactly its previous
/// contents less every catalog name.
pub proof fn lemma_down_final_ledger(defs: Seq<MigrationModel>, ledger: Set<Seq<char>>)
    ensures
        down_run(defs, ledger).1 == ledger.difference(name_set(defs)),
    decreases defs.len(),
{
    if defs.len() == 0 {
        assert(down_run(defs, ledger).1 =~= ledger.difference(name_set(defs)));
    } else {
        let rest = defs.drop_first();
        assert(forall|k: int| 0 <= k < rest.len() ==> (#[trigger] rest[k]) == defs[k + 1]);
        assert forall|n: Seq<char>| #[trigger]
            name_set(defs).contains(n) <==> name_set(rest).contains(n) || n == defs[0].name by {
            if has_name(defs, n) {
                let w = choose|w: int| 0 <= w < defs.len() && (#[trigger] defs[w]).name == n;
                if w > 0 {
                    assert(rest[w - 1].name == n);
                }
            }
            if has_name(rest, n) {
                let w = choose|w: int| 0 <= w < rest.len() && (#[trigger] rest[w]).name == n;
                assert(defs[w + 1].name == n);
            }
            if n == defs[0].name {
                assert(has_name(defs, n));
            }
        }
        if ledger.contains(defs[0].name) {
            lemma_down_final_ledger(rest, ledger.remove(defs[0].name));
            assert(ledger.remove(defs[0].name).difference(name_set(rest)) =~= ledger.difference(
                name_set(defs),
            ));
        } else {
            lemma_down_final_ledger(rest, ledger);
            assert(ledger.difference(name_set(rest)) =~= ledger.difference(name_set(defs)));
        }
    }
}

/// Law (no-op safety): a backward run against an empty ledger executes zero
/// backward scripts and leaves the ledger empty.
pub proof fn lemma_down_noop_on_empty(defs: Seq<MigrationModel>)
    ensures
        down_run(defs, Set::<Seq<char>>::empty()).0 == Seq::<Seq<char>>::empty(),
        down_run(defs, Set::<Seq<char>>::empty()).1 == Set::<Seq<char>>::empty(),
    decreases defs.len(),
{
    if defs.len() > 0 {
        lemma_down_noop_on_empty(defs.drop_first());
    }
}

/// Two predicates that agree on every element of `defs` filter it alike.
proof fn lemma_filter_same_on_elements(
    defs: Seq<MigrationModel>,
    p: spec_fn(MigrationModel) -> bool,
    q: spec_fn(MigrationModel) -> bool,
)
    requires
        forall|i: int| 0 <= i < defs.len() ==> p(#[trigger] defs[i]) == q(defs[i]),
    ensures
        defs.filter(p) == defs.filter(q),
    decreases defs.len(),
{
    reveal(Seq::filter);
    if defs.len() > 0 {
        assert(forall|i: int|
            0 <= i < defs.drop_last().len() ==> #[trigger] defs.drop_last()[i] == defs[i]);
        lemma_filter_same_on_elements(defs.drop_last(), p, q);
        assert(p(defs.last()) == q(defs.last()));
    }
}

/// Law (resumption): a forward run executes exactly the forward scripts of
/// the migrations whose names the ledger does not hold, in catalog order —
/// so a re-invocation after a partial failure re-attempts only the
/// migrations not yet recorded.
pub proof fn lemma_up_executes_pending(defs: Seq<MigrationModel>, ledger: Set<Seq<char>>)
    requires
        unique_names(defs),
    ensures
        up_run(defs, ledger).0 == defs.filter(
            |m: MigrationModel| !ledger.contains(m.name),
        ).map_values(|m: MigrationModel| m.forward_ref),
    decreases defs.len(),
{
    reveal_with_fuel(Seq::filter, 3);
    let p = |m: MigrationModel| !ledger.contains(m.name);
    let f = |m: MigrationModel| m.forward_ref;
    if defs.len() == 0 {
        assert(defs.filter(p).map_values(f) =~= Seq::<Seq<char>>::empty());
    } else {
        let d0 = defs[0];
        let rest = defs.drop_first();
        assert(forall|k: int| 0 <= k < rest.len() ==> (#[trigger] rest[k]) == defs[k + 1]);
        assert(unique_names(rest));
        assert(defs =~= seq![d0] + rest);
        Seq::filter_distributes_over_add(seq![d0], rest, p);
        assert(seq![d0].drop_last() =~= Seq::<MigrationModel>::empty());
        if ledger.contains(d0.name) {
            lemma_up_executes_pending(rest, ledger);
            assert(seq![d0].filter(p) =~= Seq::<MigrationModel>::empty());
            assert(defs.filter(p) == rest.filter(p));
        } else {
            let grown = ledger.insert(d0.name);
            let q = |m: MigrationModel| !grown.contains(m.name);
            lemma_up_executes_pending(rest, grown);
            lemma_filter_same_on_elements(rest, q, p);
            assert(seq![d0].filter(p) =~= seq![d0]);
            assert(defs.filter(p) == seq![d0] + rest.filter(p));
            assert(defs.filter(p).map_values(f) =~= seq![d0.forward_ref] + rest.filter(
                p,
            ).map_values(f));
        }
    }
}

/// Law: a backward run executes exactly the backward scripts of the
/// migrations whose names the ledger holds, in catalog order.
pub proof fn lemma_down_reverses_recorded(defs: Seq<MigrationModel>, ledger: Set<Seq<char>>)
    requires
        unique_names(defs),
    ensures
        down_run(defs, ledger).0 == defs.filter(
            |m: MigrationModel| ledger.contains(m.name),
        ).map_values(|m: MigrationModel| m.backward_ref),
    decreases defs.len(),
{
    reveal_with_fuel(Seq::filter, 3);
    let p = |m: MigrationModel| ledger.contains(m.name);
    let f = |m: MigrationModel| m.backward_ref;
    if defs.len() == 0 {
        assert(defs.filter(p).map_values(f) =~= Seq::<Seq<char>>::empty());
    } else {
        let d0 = defs[0];
        let rest = defs.drop_first();
        assert(forall|k: int| 0 <= k < rest.len() ==> (#[trigger] rest[k]) == defs[k + 1]);
        assert(unique_names(rest));
        assert(defs =~= seq![d0] + rest);
        Seq::filter_distributes_over_add(seq![d0], rest, p);
        assert(seq![d0].drop_last() =~= Seq::<MigrationModel>::empty());
        if ledger.contains(d0.name) {
            let shrunk = ledger.remove(d0.name);
            let q = |m: MigrationModel| shrunk.contains(m.name);
            lemma_down_reverses_recorded(rest, shrunk);
            lemma_filter_same_on_elements(rest, q, p);
            assert(seq![d0].filter(p) =~= seq![d0]);
            assert(defs.filter(p) == seq![d0] + rest.filter(p));
            assert(defs.filter(p).map_values(f) =~= seq![d0.backward_ref] + rest.filter(
                p,
            ).map_values(f));
        } else {
            lemma_down_reverses_recorded(rest, ledger);
            assert(seq![d0].filter(p) =~= Seq::<MigrationModel>::empty());
            assert(defs.filter(p) == rest.filter(p));
        }
    }
}

/// Law (round trip): a forward run followed by a backward run leaves the
/// ledger holding exactly what it held before, less every catalog name; in
/// particular no catalog name stays recorded.
pub proof fn lemma_up_then_down(defs: Seq<MigrationModel>, ledger: Set<Seq<char>>)
    ensures
        down_run(defs, up_run(defs, ledger).1).1 == ledger.difference(name_set(defs)),
        forall|i: int|
            0 <= i < defs.len() ==> !down_run(defs, up_run(defs, ledger).1).1.contains(
                (#[trigger] defs[i]).name,
            ),
{
    lemma_up_final_ledger(defs, ledger);
    lemma_down_final_ledger(defs, up_run(defs, ledger).1);
    assert(ledger.union(name_set(defs)).difference(name_set(defs)) =~= ledger.difference(
        name_set(defs),
    ));
    assert forall|i: int| 0 <= i < defs.len() implies !down_run(
        defs,
        up_run(defs, ledger).1,
    ).1.contains((#[trigger] defs[i]).name) by {
        assert(has_name(defs, defs[i].name));
        assert(name_set(defs).contains(defs[i].name));
    }
}

} // verus!
