//! The ledger of applied migrations.
//!
//! The persisted ledger is a table keyed by migration name: a row's presence
//! is the sole source of truth for "this migration has been applied". This
//! type carries the same semantics over an in-memory row set, so the engine's
//! runs can be verified and exercised against it; a host that keeps its
//! ledger in a database mirrors these operations with the engine's statement
//! builders.

use vstd::prelude::*;

verus! {

/// The set of migration names currently recorded as applied.
pub struct Ledger {
    rows: Vec<String>,
}

impl Ledger {
    /// The recorded names, as a set: a row's presence is all that matters.
    pub closed spec fn contents(&self) -> Set<Seq<char>> {
        Set::new(|n: Seq<char>| exists|i: int| 0 <= i < self.rows@.len() && self.rows@[i]@ == n)
    }

    /// No name is recorded twice: the ledger is keyed by name.
    pub closed spec fn wf(&self) -> bool {
        forall|i: int, j: int|
            #![trigger self.rows@[i], self.rows@[j]]
            0 <= i < self.rows@.len() && 0 <= j < self.rows@.len() && i != j ==> self.rows@[i]@
                != self.rows@[j]@
    }

    /// A freshly created ledger holds no rows.
    pub fn new() -> (r: Ledger)
        ensures
            r.wf(),
            r.contents() == Set::<Seq<char>>::empty(),
    {
        let r = Ledger { rows: Vec::new() };
        proof {
            assert(r.contents() =~= Set::<Seq<char>>::empty());
        }
        r
    }

    /// True iff a row for `name` is present.
    pub fn contains(&self, name: &String) -> (r: bool)
        ensures
            r == self.contents().contains(name@),
    {
        let mut i: usize = 0;
        while i < self.rows.len()
            invariant
                0 <= i <= self.rows@.len(),
                forall|k: int| 0 <= k < i ==> (#[trigger] self.rows@[k])@ != name@,
            decreases self.rows@.len() - i,
        {
            if self.rows[i] == *name {
                return true;
            }
            i = i + 1;
        }
        false
    }

    /// Record `name` as applied. The caller must have verified that it is not
    /// yet recorded: there is no upsert.
    pub fn record(&mut self, name: String)
        requires
            old(self).wf(),
            !old(self).contents().contains(name@),
        ensures
            final(self).wf(),
            final(self).contents() == old(self).contents().insert(name@),
    {
        self.rows.push(name);
        proof {
            let rows = self.rows@;
            let n = rows.len() as int;
            assert(forall|k: int| 0 <= k < n - 1 ==> rows[k] == #[trigger] old(self).rows@[k]);
            assert forall|i: int, j: int|
                #![trigger rows[i], rows[j]]
                0 <= i < n && 0 <= j < n && i != j implies rows[i]@ != rows[j]@ by {
                if i == n - 1 {
                    assert(old(self).contents().contains(rows[j]@) || rows[j]@ != rows[i]@);
                } else if j == n - 1 {
                    assert(old(self).contents().contains(rows[i]@) || rows[i]@ != rows[j]@);
                }
            }
            assert(self.contents() =~= old(self).contents().insert(name@)) by {
                assert forall|x: Seq<char>| old(self).contents().insert(name@).contains(
                    x,
                ) implies self.contents().contains(x) by {
                    if x == name@ {
                        assert(rows[n - 1]@ == x);
                    } else {
                        let w = choose|w: int|
                            0 <= w < old(self).rows@.len() && old(self).rows@[w]@ == x;
                        assert(rows[w]@ == x);
                    }
                }
            }
        }
    }

    /// Delete the row for `name`, if one is present.
    pub fn unrecord(&mut self, name: &String)
        requires
            old(self).wf(),
        ensures
            final(self).wf(),
            final(self).contents() == old(self).contents().remove(name@),
    {
        let mut i: usize = 0;
        while i < self.rows.len()
            invariant
                old(self).wf(),
                0 <= i <= self.rows@.len(),
                self.rows@ == old(self).rows@,
                forall|k: int| 0 <= k < i ==> (#[trigger] old(self).rows@[k])@ != name@,
            decreases self.rows@.len() - i,
        {
            if self.rows[i] == *name {
                self.rows.remove(i);
                proof {
                    let orig = old(self).rows@;
                    let rows = self.rows@;
                    let n = orig.len() as int;
                    let ii = i as int;
                    assert(forall|k: int|
                        0 <= k < n - 1 ==> #[trigger] rows[k] == (if k < ii {
                            orig[k]
                        } else {
                            orig[k + 1]
                        }));
                    assert forall|a: int, b: int|
                        #![trigger rows[a], rows[b]]
                        0 <= a < rows.len() && 0 <= b < rows.len() && a != b implies rows[a]@
                        != rows[b]@ by {
                        let a0 = if a < ii {
                            a
                        } else {
                            a + 1
                        };
                        let b0 = if b < ii {
                            b
                        } else {
                            b + 1
                        };
                        assert(rows[a] == old(self).rows@[a0]);
                        assert(rows[b] == old(self).rows@[b0]);
                        assert(old(self).rows@[a0]@ != old(self).rows@[b0]@);
                    }
                    assert(self.contents() =~= old(self).contents().remove(name@)) by {
                        assert forall|x: Seq<char>| self.contents().contains(x) implies old(
                            self,
                        ).contents().remove(name@).contains(x) by {
                            let w = choose|w: int| 0 <= w < rows.len() && rows[w]@ == x;
                            let w0 = if w < ii {
                                w
                            } else {
                                w + 1
                            };
                            assert(old(self).rows@[w0]@ == x);
                            assert(x != name@) by {
                                if x == name@ {
                                    assert(old(self).rows@[w0]@ == old(self).rows@[ii]@);
                                }
                            }
                        }
                        assert forall|x: Seq<char>| old(self).contents().remove(name@).contains(
                            x,
                        ) implies self.contents().contains(x) by {
                            let w = choose|w: int| 0 <= w < orig.len() && (#[trigger] orig[w])@
                                == x;
                            assert(old(self).rows@[w]@ == x);
                            assert(w != ii) by {
                                assert(old(self).rows@[ii]@ == name@);
                            }
                            if w < ii {
                                assert(rows[w]@ == x);
                            } else {
                                assert(rows[w - 1]@ == x);
                            }
                        }
                    }
                }
                return;
            }
            i = i + 1;
        }
        proof {
            assert(self.contents() =~= old(self).contents().remove(name@)) by {
                assert(!self.contents().contains(name@));
            }
        }
    }
}

} // verus!
