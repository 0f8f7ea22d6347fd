use vstd::prelude::*;

use crate::error::KvError;
use crate::kvdb::{
    KeyValueDB, TablesView, cleared_all, lemma_prefix_filter_pairs, prefix_filter, table_at,
    table_cleared, tbl_get, tbl_insert, tbl_remove, values_match,
};
use crate::listing::{
    filter_pairs_by_prefix, lemma_names_match_contains, lemma_pairs_match_keys, names_contain,
    project_keys, project_values,
};
use crate::overlay::reserved_name;
use crate::smap::{names_match, pairs_match};

verus! {

/// The effect of a pending table delta on one table: pending `Some` entries
/// override, pending `None` entries remove.
pub open spec fn apply_delta(
    tm: Map<Seq<char>, Seq<u8>>,
    d: Map<Seq<char>, Option<Seq<u8>>>,
) -> Map<Seq<char>, Seq<u8>> {
    Map::new(
        |k: Seq<char>|
            if d.contains_key(k) {
                d[k] is Some
            } else {
                tm.contains_key(k)
            },
        |k: Seq<char>|
            if d.contains_key(k) {
                d[k]->0
            } else {
                tm[k]
            },
    )
}

/// The store that committing a write transaction onto base state `b`
/// produces: tables deleted in the transaction disappear, pending deltas are
/// applied table by table, and a table written in the transaction exists
/// afterwards even if all its pending entries are removals.
pub open spec fn apply_tx(
    b: TablesView,
    dels: Set<Seq<char>>,
    pend: Map<Seq<char>, Map<Seq<char>, Option<Seq<u8>>>>,
) -> TablesView {
    Map::new(
        |t: Seq<char>| pend.contains_key(t) || (b.contains_key(t) && !dels.contains(t)),
        |t: Seq<char>|
            apply_delta(
                if b.contains_key(t) && !dels.contains(t) {
                    b[t]
                } else {
                    Map::empty()
                },
                if pend.contains_key(t) {
                    pend[t]
                } else {
                    Map::empty()
                },
            ),
    )
}

/// A point-in-time read view of a store.
///
/// `visible()` is what this handle sees; it never changes once the handle
/// exists. `rt_ok()` says reads on this handle cannot fail.
pub trait KVReadTransaction {
    /// The tables this handle sees.
    spec fn visible(&self) -> TablesView;

    /// Internal well-formedness of the handle.
    spec fn rt_inv(&self) -> bool;

    /// Whether reads on this handle always succeed.
    spec fn rt_ok(&self) -> bool;

    /// The value of key `key` in table `table_name`, as this handle sees it.
    fn get(&self, table_name: &str, key: &str) -> (r: Result<Option<Vec<u8>>, KvError>)
        requires
            self.rt_inv(),
        ensures
            r is Ok ==> (r->Ok_0).deep_view() == tbl_get(self.visible(), table_name@, key@),
            self.rt_ok() ==> r is Ok,
    ;

    /// All pairs of the table, as this handle sees it.
    fn iter(&self, table_name: &str) -> (r: Result<Vec<(String, Vec<u8>)>, KvError>)
        requires
            self.rt_inv(),
        ensures
            r is Ok ==> pairs_match((r->Ok_0).deep_view(), table_at(self.visible(), table_name@)),
            self.rt_ok() ==> r is Ok,
    ;

    /// The live table names, as this handle sees them.
    fn table_names(&self) -> (r: Result<Vec<String>, KvError>)
        requires
            self.rt_inv(),
        ensures
            r is Ok ==> names_match((r->Ok_0).deep_view(), self.visible().dom()),
            self.rt_ok() ==> r is Ok,
    ;

    /// The visible pairs of the table whose keys start with `prefix`.
    fn iter_from_prefix(&self, table_name: &str, prefix: &str) -> (r: Result<
        Vec<(String, Vec<u8>)>,
        KvError,
    >)
        requires
            self.rt_inv(),
        ensures
            r is Ok ==> pairs_match(
                (r->Ok_0).deep_view(),
                prefix_filter(table_at(self.visible(), table_name@), prefix@),
            ),
            self.rt_ok() ==> r is Ok,
    {
        let all = match self.iter(table_name) {
            Ok(v) => v,
            Err(e) => {
                return Err(e);
            },
        };
        let out = filter_pairs_by_prefix(&all, prefix);
        proof {
            lemma_prefix_filter_pairs(
                all.deep_view(),
                table_at(self.visible(), table_name@),
                prefix@,
            );
        }
        Ok(out)
    }

    /// Whether this handle sees a table of the given name.
    fn contains_table(&self, table_name: &str) -> (r: Result<bool, KvError>)
        requires
            self.rt_inv(),
        ensures
            r is Ok ==> r->Ok_0 == self.visible().contains_key(table_name@),
            self.rt_ok() ==> r is Ok,
    {
        let names = match self.table_names() {
            Ok(v) => v,
            Err(e) => {
                return Err(e);
            },
        };
        let found = names_contain(&names, table_name);
        proof {
            lemma_names_match_contains(names.deep_view(), self.visible().dom(), table_name@);
        }
        Ok(found)
    }

    /// Whether this handle sees the key in the table.
    fn contains_key(&self, table_name: &str, key: &str) -> (r: Result<bool, KvError>)
        requires
            self.rt_inv(),
        ensures
            r is Ok ==> r->Ok_0 == (tbl_get(self.visible(), table_name@, key@) is Some),
            self.rt_ok() ==> r is Ok,
    {
        match self.get(table_name, key) {
            Ok(v) => Ok(v.is_some()),
            Err(e) => Err(e),
        }
    }

    /// The visible keys of the table, each exactly once.
    fn keys(&self, table_name: &str) -> (r: Result<Vec<String>, KvError>)
        requires
            self.rt_inv(),
        ensures
            r is Ok ==> names_match(
                (r->Ok_0).deep_view(),
                table_at(self.visible(), table_name@).dom(),
            ),
            self.rt_ok() ==> r is Ok,
    {
        let all = match self.iter(table_name) {
            Ok(v) => v,
            Err(e) => {
                return Err(e);
            },
        };
        let out = project_keys(&all);
        proof {
            lemma_pairs_match_keys(all.deep_view(), table_at(self.visible(), table_name@));
        }
        Ok(out)
    }

    /// The visible values of the table: the value column of one enumeration.
    fn values(&self, table_name: &str) -> (r: Result<Vec<Vec<u8>>, KvError>)
        requires
            self.rt_inv(),
        ensures
            r is Ok ==> values_match(
                (r->Ok_0).deep_view(),
                table_at(self.visible(), table_name@),
            ),
            self.rt_ok() ==> r is Ok,
    {
        let all = match self.iter(table_name) {
            Ok(v) => v,
            Err(e) => {
                return Err(e);
            },
        };
        let out = project_values(&all);
        Ok(out)
    }
}

/// A write transaction: a read view plus a pending overlay, committed or
/// discarded as a whole.
///
/// Mutations touch only the handle's own state; the store is reached only by
/// `commit`, which takes it as an argument. `apply(b)` is the store state
/// that committing this transaction onto base state `b` would produce, and
/// `began_on()` is the store state the transaction started from. The clause
/// `visible() == apply(began_on())` is read-your-own-writes: the handle
/// always sees exactly what its commit would publish on an unchanged store.
pub trait KVWriteTransaction: KVReadTransaction {
    /// The store type this transaction commits into.
    type DB: KeyValueDB;

    /// The store state that committing onto base state `b` produces.
    spec fn apply(&self, b: TablesView) -> TablesView;

    /// The visible store state when the transaction began.
    spec fn began_on(&self) -> TablesView;

    /// The visible state with any transaction-local deletion of `t` undone:
    /// the view a write to `t` works against, since writing to a table
    /// deleted earlier in the same transaction first takes that deletion
    /// back.
    spec fn undelete(&self, t: Seq<char>) -> TablesView;

    /// Whether mutations recorded on this handle always succeed (except for
    /// the refusal of the reserved table names), and committing it always
    /// succeeds: the write-side counterpart of `rt_ok`.
    spec fn wt_ok(&self) -> bool;

    /// Record a write of `value` under `key` in `table_name`, visible to
    /// this transaction at once and to others only after commit. If this
    /// transaction had deleted the table, the deletion is undone first.
    fn insert(&mut self, table_name: &str, key: &str, value: &[u8]) -> (r: Result<
        Option<Vec<u8>>,
        KvError,
    >)
        requires
            old(self).rt_inv(),
        ensures
            final(self).rt_inv(),
            final(self).rt_ok() == old(self).rt_ok(),
            final(self).wt_ok() == old(self).wt_ok(),
            final(self).began_on() == old(self).began_on(),
            old(self).undelete(table_name@).remove(table_name@) == old(self).visible().remove(
                table_name@,
            ),
            old(self).visible().contains_key(table_name@) ==> old(self).undelete(table_name@)
                == old(self).visible(),
            old(self).wt_ok() ==> (reserved_name(table_name@) <==> r == Err::<
                Option<Vec<u8>>,
                KvError,
            >(KvError::InvalidInput)),
            old(self).wt_ok() ==> (r is Ok <==> !reserved_name(table_name@)),
            r is Ok ==> final(self).visible() == tbl_insert(
                old(self).undelete(table_name@),
                table_name@,
                key@,
                value@,
            ) && (r->Ok_0).deep_view() == tbl_get(
                old(self).undelete(table_name@),
                table_name@,
                key@,
            ),
            r is Err ==> final(self).visible() == old(self).visible() && (forall|b: TablesView|
                #[trigger] final(self).apply(b) == old(self).apply(b)),
            old(self).visible() == old(self).apply(old(self).began_on()) ==> final(self).visible()
                == final(self).apply(final(self).began_on()),
    ;

    /// Record a removal of `key` from `table_name`. A missing table or key
    /// is not an error.
    fn remove(&mut self, table_name: &str, key: &str) -> (r: Result<Option<Vec<u8>>, KvError>)
        requires
            old(self).rt_inv(),
        ensures
            final(self).rt_inv(),
            final(self).rt_ok() == old(self).rt_ok(),
            final(self).wt_ok() == old(self).wt_ok(),
            final(self).began_on() == old(self).began_on(),
            old(self).visible().contains_key(table_name@) ==> old(self).undelete(table_name@)
                == old(self).visible(),
            old(self).wt_ok() ==> (reserved_name(table_name@) <==> r == Err::<
                Option<Vec<u8>>,
                KvError,
            >(KvError::InvalidInput)),
            old(self).wt_ok() ==> (r is Ok <==> !reserved_name(table_name@)),
            r is Ok ==> final(self).visible() == tbl_remove(
                old(self).visible(),
                table_name@,
                key@,
            ) && (r->Ok_0).deep_view() == tbl_get(old(self).visible(), table_name@, key@),
            r is Err ==> final(self).visible() == old(self).visible() && (forall|b: TablesView|
                #[trigger] final(self).apply(b) == old(self).apply(b)),
            old(self).visible() == old(self).apply(old(self).began_on()) ==> final(self).visible()
                == final(self).apply(final(self).began_on()),
    ;

    /// Apply the whole overlay to the store as one unit: afterwards the
    /// store is exactly `apply` of its previous state; nothing is applied on
    /// failure.
    fn commit(self, db: &mut Self::DB) -> (r: Result<(), KvError>)
        requires
            self.rt_inv(),
            old(db).inv(),
        ensures
            final(db).inv(),
            final(db).always_ok() == old(db).always_ok(),
            self.wt_ok() ==> r is Ok,
            r is Ok ==> final(db).model() == self.apply(old(db).model()),
            r is Err ==> final(db).model() == old(db).model(),
    ;

    /// Discard the overlay. Aborting never fails and never touches any
    /// store: this handle holds no reference to one.
    fn abort(self) -> (r: Result<(), KvError>)
        ensures
            r is Ok,
    ;

    /// Mark the table deleted in this transaction: its pending entries are
    /// dropped and it is no longer visible.
    fn delete_table(&mut self, table_name: &str) -> (r: Result<(), KvError>)
        requires
            old(self).rt_inv(),
        ensures
            final(self).rt_inv(),
            final(self).rt_ok() == old(self).rt_ok(),
            final(self).wt_ok() == old(self).wt_ok(),
            final(self).began_on() == old(self).began_on(),
            r is Ok ==> table_cleared(old(self).visible(), final(self).visible(), table_name@),
            old(self).rt_ok() && old(self).wt_ok() && !reserved_name(table_name@) ==> r is Ok,
    {
        let ks = match self.keys(table_name) {
            Ok(v) => v,
            Err(e) => {
                return Err(e);
            },
        };
        let ghost m0 = self.visible();
        let ghost tm0 = table_at(m0, table_name@);
        let ghost names = ks.deep_view();
        let n = ks.len();
        proof {
            assert(names.take(0).to_set() =~= Set::<Seq<char>>::empty());
            if m0.contains_key(table_name@) {
                assert(tm0.remove_keys(names.take(0).to_set()) =~= tm0);
                assert(m0.insert(table_name@, tm0) =~= m0);
            }
        }
        let mut i: usize = 0;
        while i < n
            invariant
                i <= n,
                n == ks.len(),
                names == ks.deep_view(),
                names_match(names, tm0.dom()),
                self.rt_inv(),
                self.rt_ok() == old(self).rt_ok(),
                self.wt_ok() == old(self).wt_ok(),
                self.began_on() == old(self).began_on(),
                m0.contains_key(table_name@) ==> self.visible() == m0.insert(
                    table_name@,
                    tm0.remove_keys(names.take(i as int).to_set()),
                ),
                !m0.contains_key(table_name@) ==> self.visible() == m0,
            decreases n - i,
        {
            let ghost mpre = self.visible();
            match self.remove(table_name, ks[i].as_str()) {
                Ok(_) => {},
                Err(e) => {
                    return Err(e);
                },
            }
            proof {
                crate::smap::lemma_take_to_set_step(names, i as int);
                if m0.contains_key(table_name@) {
                    assert(tm0.remove_keys(names.take(i as int).to_set()).remove(names[i as int])
                        =~= tm0.remove_keys(names.take(i + 1 as int).to_set()));
                    assert(self.visible() =~= m0.insert(
                        table_name@,
                        tm0.remove_keys(names.take(i + 1 as int).to_set()),
                    ));
                } else {
                    assert(!mpre.contains_key(table_name@));
                }
            }
            i = i + 1;
        }
        proof {
            if m0.contains_key(table_name@) {
                assert(names.take(n as int) =~= names);
                assert forall|k: Seq<char>| tm0.contains_key(k) implies names.to_set().contains(
                    k,
                ) by {
                    let j = choose|j: int| 0 <= j < names.len() && #[trigger] names[j] == k;
                    assert(names.contains(k));
                }
                assert(tm0.remove_keys(names.to_set()) =~= Map::<Seq<char>, Seq<u8>>::empty());
            }
        }
        Ok(())
    }

    /// Mark every visible table deleted in this transaction.
    fn clear(&mut self) -> (r: Result<(), KvError>)
        requires
            old(self).rt_inv(),
        ensures
            final(self).rt_inv(),
            final(self).rt_ok() == old(self).rt_ok(),
            final(self).wt_ok() == old(self).wt_ok(),
            final(self).began_on() == old(self).began_on(),
            r is Ok ==> cleared_all(old(self).visible(), final(self).visible()),
            old(self).rt_ok() && old(self).wt_ok() && (forall|t: Seq<char>|
                #[trigger] old(self).visible().contains_key(t) ==> !reserved_name(t)) ==> r is Ok,
    {
        let ts = match self.table_names() {
            Ok(v) => v,
            Err(e) => {
                return Err(e);
            },
        };
        let ghost m0 = self.visible();
        let ghost names = ts.deep_view();
        let n = ts.len();
        let mut i: usize = 0;
        while i < n
            invariant
                i <= n,
                n == ts.len(),
                names == ts.deep_view(),
                names_match(names, m0.dom()),
                m0 == old(self).visible(),
                self.rt_inv(),
                self.rt_ok() == old(self).rt_ok(),
                self.wt_ok() == old(self).wt_ok(),
                self.began_on() == old(self).began_on(),
                forall|j: int|
                    i <= j < n ==> (self.visible().contains_key(#[trigger] names[j])
                        == m0.contains_key(names[j]) && (self.visible().contains_key(names[j])
                        ==> self.visible()[names[j]] == m0[names[j]])),
                forall|j: int|
                    0 <= j < i ==> (self.visible().contains_key(#[trigger] names[j])
                        ==> self.visible()[names[j]] == Map::<Seq<char>, Seq<u8>>::empty()),
                forall|t: Seq<char>|
                    #[trigger] self.visible().contains_key(t) ==> m0.contains_key(t),
            decreases n - i,
        {
            let ghost mpre = self.visible();
            match self.delete_table(ts[i].as_str()) {
                Ok(_) => {},
                Err(e) => {
                    proof {
                        if old(self).rt_ok() && old(self).wt_ok() && (forall|t: Seq<char>|
                            #[trigger] old(self).visible().contains_key(t) ==> !reserved_name(t)) {
                            assert(m0.dom().contains(names[i as int]));
                            assert(old(self).visible().contains_key(names[i as int]));
                            assert(!reserved_name(names[i as int]));
                            assert(false);
                        }
                    }
                    return Err(e);
                },
            }
            proof {
                let t0 = names[i as int];
                let m1 = self.visible();
                let empty_tbl = Map::<Seq<char>, Seq<u8>>::empty();
                assert(m1 == mpre.remove(t0) || m1 == (if mpre.contains_key(t0) {
                    mpre.insert(t0, empty_tbl)
                } else {
                    mpre
                }));
                assert forall|j: int| i + 1 <= j < n implies (m1.contains_key(#[trigger] names[j])
                    == m0.contains_key(names[j]) && (m1.contains_key(names[j]) ==> m1[names[j]]
                    == m0[names[j]])) by {
                    assert(names[j] != t0);
                    assert(mpre.contains_key(names[j]) == m0.contains_key(names[j]));
                }
                assert forall|j: int| 0 <= j < i + 1 implies (m1.contains_key(#[trigger] names[j])
                    ==> m1[names[j]] == empty_tbl) by {
                    if j < i {
                        assert(names[j] != t0);
                        assert(mpre.contains_key(names[j]) ==> mpre[names[j]] == empty_tbl);
                    }
                }
                assert forall|t: Seq<char>| #[trigger] m1.contains_key(t) implies m0.contains_key(
                    t,
                ) by {
                    if m1 == mpre.remove(t0) {
                        assert(mpre.contains_key(t));
                    } else if mpre.contains_key(t0) {
                        assert(mpre.contains_key(t));
                    } else {
                        assert(m1 == mpre);
                    }
                }
            }
            i = i + 1;
        }
        proof {
            assert forall|t: Seq<char>| self.visible().contains_key(t) implies m0.contains_key(t)
                && self.visible()[t] == Map::<Seq<char>, Seq<u8>>::empty() by {
                assert(m0.contains_key(t));
                assert(m0.dom().contains(t));
                let j = choose|j: int| 0 <= j < names.len() && #[trigger] names[j] == t;
                assert(self.visible().contains_key(names[j]) ==> self.visible()[names[j]] == Map::<
                    Seq<char>,
                    Seq<u8>,
                >::empty());
            }
            assert(self.visible().dom().subset_of(m0.dom()));
        }
        Ok(())
    }
}

/// A store that can open transactions: read handles bound to a consistent
/// snapshot, and write handles that buffer an overlay until commit.
pub trait TransactionalKVDB: KeyValueDB {
    type ReadTransaction: KVReadTransaction;

    type WriteTransaction: KVWriteTransaction<DB = Self>;

    /// A read handle over a snapshot of the current state: later writes to
    /// the store are not visible through it.
    fn begin_read(&self) -> (r: Result<Self::ReadTransaction, KvError>)
        requires
            self.inv(),
        ensures
            r is Ok ==> ((r->Ok_0).visible() == self.model() && (r->Ok_0).rt_inv()),
            self.always_ok() ==> r is Ok,
    ;

    /// A write handle with an empty overlay over the current state:
    /// committing it unchanged publishes nothing.
    fn begin_write(&self) -> (r: Result<Self::WriteTransaction, KvError>)
        requires
            self.inv(),
        ensures
            r is Ok ==> ((r->Ok_0).visible() == self.model() && (r->Ok_0).rt_inv() && (
            r->Ok_0).began_on() == self.model() && (forall|b: TablesView|
                #[trigger] (r->Ok_0).apply(b) == b) && (forall|t: Seq<char>|
                #[trigger] (r->Ok_0).undelete(t) == (r->Ok_0).visible())),
            self.always_ok() ==> r is Ok,
    ;
}

} // verus!
