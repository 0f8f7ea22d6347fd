use vstd::prelude::*;

use crate::error::KvError;
use crate::smap::{names_match, pairs_match};
use crate::strutil::{spec_is_prefix, str_eq, str_has_prefix};

verus! {

/// The mathematical state of a key-value store: table name to key to value.
pub type TablesView = Map<Seq<char>, Map<Seq<char>, Seq<u8>>>;

/// The table stored under `t`, or the empty table if there is none.
pub open spec fn table_at(m: TablesView, t: Seq<char>) -> Map<Seq<char>, Seq<u8>> {
    if m.contains_key(t) {
        m[t]
    } else {
        Map::empty()
    }
}

/// The value stored under key `k` of table `t`, if any.
pub open spec fn tbl_get(m: TablesView, t: Seq<char>, k: Seq<char>) -> Option<Seq<u8>> {
    if m.contains_key(t) && m[t].contains_key(k) {
        Some(m[t][k])
    } else {
        None
    }
}

/// The store after setting key `k` of table `t` to `v`; the table is created
/// if it was absent.
pub open spec fn tbl_insert(m: TablesView, t: Seq<char>, k: Seq<char>, v: Seq<u8>) -> TablesView {
    m.insert(t, table_at(m, t).insert(k, v))
}

/// The store after dropping key `k` from table `t`; an absent table stays
/// absent, and a table emptied this way stays present.
pub open spec fn tbl_remove(m: TablesView, t: Seq<char>, k: Seq<char>) -> TablesView {
    if m.contains_key(t) {
        m.insert(t, m[t].remove(k))
    } else {
        m
    }
}

/// The part of a table whose keys start with `p`.
pub open spec fn prefix_filter(tm: Map<Seq<char>, Seq<u8>>, p: Seq<char>) -> Map<
    Seq<char>,
    Seq<u8>,
> {
    tm.restrict(Set::new(|k: Seq<char>| spec_is_prefix(p, k)))
}

/// After a table deletion, the rest of the store is untouched and the table
/// itself is either gone or left behind empty; which of the two a store does
/// is its own choice.
pub open spec fn table_cleared(m0: TablesView, m1: TablesView, t: Seq<char>) -> bool {
    ||| m1 == m0.remove(t)
    ||| m1 == (if m0.contains_key(t) {
        m0.insert(t, Map::<Seq<char>, Seq<u8>>::empty())
    } else {
        m0
    })
}

/// After a full clear, no table holds an entry, and no new table appeared.
pub open spec fn cleared_all(m0: TablesView, m1: TablesView) -> bool {
    &&& m1.dom().subset_of(m0.dom())
    &&& forall|t: Seq<char>|
        m1.contains_key(t) ==> m1[t] == Map::<Seq<char>, Seq<u8>>::empty()
}

/// The base capability of a key-value store: byte-oriented CRUD and
/// enumeration over named tables, with derived default operations.
///
/// `model()` is the store's mathematical state, `inv()` its well-formedness
/// (constructors establish it, every operation keeps it), and `always_ok()`
/// says the store never reports a backend failure. Absence of a key or a
/// table is never an error: reads report it as `None` or an empty listing.
pub trait KeyValueDB {
    /// The tables of the store, as the caller can observe them.
    spec fn model(&self) -> TablesView;

    /// Internal well-formedness of the store value.
    spec fn inv(&self) -> bool;

    /// Whether every operation on this store is guaranteed to succeed.
    spec fn always_ok(&self) -> bool;

    /// Set key `key` of table `table_name` to `value`, creating the table if
    /// needed, and report the value the key held before. A failed write
    /// leaves the store unchanged, except that a backend whose final commit
    /// step fails may already have applied this one write in full.
    fn insert(&mut self, table_name: &str, key: &str, value: &[u8]) -> (r: Result<
        Option<Vec<u8>>,
        KvError,
    >)
        requires
            old(self).inv(),
        ensures
            final(self).inv(),
            final(self).always_ok() == old(self).always_ok(),
            r is Ok ==> final(self).model() == tbl_insert(
                old(self).model(),
                table_name@,
                key@,
                value@,
            ) && (r->Ok_0).deep_view() == tbl_get(old(self).model(), table_name@, key@),
            r is Err ==> final(self).model() == old(self).model() || final(self).model()
                == tbl_insert(old(self).model(), table_name@, key@, value@),
            old(self).always_ok() ==> r is Ok,
    ;

    /// The value held by key `key` of table `table_name`, if any.
    fn get(&self, table_name: &str, key: &str) -> (r: Result<Option<Vec<u8>>, KvError>)
        requires
            self.inv(),
        ensures
            r is Ok ==> (r->Ok_0).deep_view() == tbl_get(self.model(), table_name@, key@),
            self.always_ok() ==> r is Ok,
    ;

    /// Drop key `key` from table `table_name` and report the value it held.
    /// A missing table or key is not an error. A failed removal leaves the
    /// store unchanged, except that a backend whose final commit step fails
    /// may already have applied this one removal in full.
    fn remove(&mut self, table_name: &str, key: &str) -> (r: Result<Option<Vec<u8>>, KvError>)
        requires
            old(self).inv(),
        ensures
            final(self).inv(),
            final(self).always_ok() == old(self).always_ok(),
            r is Ok ==> final(self).model() == tbl_remove(old(self).model(), table_name@, key@)
                && (r->Ok_0).deep_view() == tbl_get(old(self).model(), table_name@, key@),
            r is Err ==> final(self).model() == old(self).model() || final(self).model()
                == tbl_remove(old(self).model(), table_name@, key@),
            old(self).always_ok() ==> r is Ok,
    ;

    /// All key/value pairs of the table, each key exactly once, in no
    /// promised order.
    fn iter(&self, table_name: &str) -> (r: Result<Vec<(String, Vec<u8>)>, KvError>)
        requires
            self.inv(),
        ensures
            r is Ok ==> pairs_match((r->Ok_0).deep_view(), table_at(self.model(), table_name@)),
            self.always_ok() ==> r is Ok,
    ;

    /// The names of all live tables, each exactly once, in no promised order.
    fn table_names(&self) -> (r: Result<Vec<String>, KvError>)
        requires
            self.inv(),
        ensures
            r is Ok ==> names_match((r->Ok_0).deep_view(), self.model().dom()),
            self.always_ok() ==> r is Ok,
    ;

    /// The pairs of the table whose keys start with `prefix`.
    fn iter_from_prefix(&self, table_name: &str, prefix: &str) -> (r: Result<
        Vec<(String, Vec<u8>)>,
        KvError,
    >)
        requires
            self.inv(),
        ensures
            r is Ok ==> pairs_match(
                (r->Ok_0).deep_view(),
                prefix_filter(table_at(self.model(), table_name@), prefix@),
            ),
            self.always_ok() ==> r is Ok,
    {
        let all = match self.iter(table_name) {
            Ok(v) => v,
            Err(e) => {
                return Err(e);
            },
        };
        let ghost s = all.deep_view();
        let ghost tm = table_at(self.model(), table_name@);
        let ghost pred = (|pr: (Seq<char>, Seq<u8>)| spec_is_prefix(prefix@, pr.0));
        let n = all.len();
        let mut out: Vec<(String, Vec<u8>)> = Vec::new();
        let mut i: usize = 0;
        proof {
            assert(s.take(0) =~= Seq::<(Seq<char>, Seq<u8>)>::empty());
            assert(out.deep_view() =~= s.take(0).filter(pred));
        }
        while i < n
            invariant
                i <= n,
                n == all.len(),
                s == all.deep_view(),
                pairs_match(s, tm),
                pred == (|pr: (Seq<char>, Seq<u8>)| spec_is_prefix(prefix@, pr.0)),
                out.deep_view() == s.take(i as int).filter(pred),
            decreases n - i,
        {
            let ghost prev = out.deep_view();
            proof {
                reveal(Seq::filter);
                assert(s.take(i + 1 as int).drop_last() =~= s.take(i as int));
                assert(s.take(i + 1 as int).last() == s[i as int]);
            }
            if str_has_prefix(all[i].0.as_str(), prefix) {
                let pair = (all[i].0.clone(), crate::smap::bytes_clone(&all[i].1));
                proof {
                    assert(pair.deep_view() == s[i as int]);
                }
                out.push(pair);
                proof {
                    assert(out.deep_view() =~= prev.push(s[i as int]));
                    assert(pred(s[i as int]));
                }
            } else {
                proof {
                    assert(!pred(s[i as int]));
                }
            }
            i = i + 1;
        }
        proof {
            assert(s.take(n as int) =~= s);
            lemma_prefix_filter_pairs(s, tm, prefix@);
        }
        Ok(out)
    }

    /// Whether a live table of this name exists.
    fn contains_table(&self, table_name: &str) -> (r: Result<bool, KvError>)
        requires
            self.inv(),
        ensures
            r is Ok ==> r->Ok_0 == self.model().contains_key(table_name@),
            self.always_ok() ==> r is Ok,
    {
        let names = match self.table_names() {
            Ok(v) => v,
            Err(e) => {
                return Err(e);
            },
        };
        let n = names.len();
        let mut i: usize = 0;
        while i < n
            invariant
                i <= n,
                n == names.len(),
                names_match(names.deep_view(), self.model().dom()),
                forall|j: int| 0 <= j < i ==> names.deep_view()[j] != table_name@,
            decreases n - i,
        {
            if str_eq(names[i].as_str(), table_name) {
                proof {
                    assert(self.model().dom().contains(names.deep_view()[i as int]));
                }
                return Ok(true);
            }
            i = i + 1;
        }
        proof {
            if self.model().contains_key(table_name@) {
                let j = choose|j: int|
                    0 <= j < names.deep_view().len() && names.deep_view()[j] == table_name@;
                assert(false);
            }
        }
        Ok(false)
    }

    /// Whether the table holds the key.
    fn contains_key(&self, table_name: &str, key: &str) -> (r: Result<bool, KvError>)
        requires
            self.inv(),
        ensures
            r is Ok ==> r->Ok_0 == (tbl_get(self.model(), table_name@, key@) is Some),
            self.always_ok() ==> r is Ok,
    {
        match self.get(table_name, key) {
            Ok(v) => Ok(v.is_some()),
            Err(e) => Err(e),
        }
    }

    /// All keys of the table, each exactly once.
    fn keys(&self, table_name: &str) -> (r: Result<Vec<String>, KvError>)
        requires
            self.inv(),
        ensures
            r is Ok ==> names_match(
                (r->Ok_0).deep_view(),
                table_at(self.model(), table_name@).dom(),
            ),
            self.always_ok() ==> r is Ok,
    {
        let all = match self.iter(table_name) {
            Ok(v) => v,
            Err(e) => {
                return Err(e);
            },
        };
        let ghost s = all.deep_view();
        let ghost tm = table_at(self.model(), table_name@);
        let n = all.len();
        let mut out: Vec<String> = Vec::new();
        let mut i: usize = 0;
        while i < n
            invariant
                i <= n,
                n == all.len(),
                s == all.deep_view(),
                pairs_match(s, tm),
                out.len() == i,
                forall|j: int| 0 <= j < i ==> out.deep_view()[j] == s[j].0,
            decreases n - i,
        {
            let ghost prev = out.deep_view();
            out.push(all[i].0.clone());
            proof {
                assert forall|j: int| 0 <= j < i + 1 implies out.deep_view()[j] == s[j].0 by {
                    if j < i {
                        assert(out@[j] == out@.drop_last()[j]);
                        assert(out.deep_view()[j] == prev[j]);
                    } else {
                        assert(out@[j].deep_view() == all@[i as int].0@);
                    }
                }
            }
            i = i + 1;
        }
        proof {
            let od = out.deep_view();
            assert forall|k: Seq<char>| tm.dom().contains(k) implies exists|j: int|
                0 <= j < od.len() && #[trigger] od[j] == k by {
                let l = choose|l: int| 0 <= l < s.len() && (#[trigger] s[l]).0 == k;
                assert(od[l] == k);
            }
        }
        Ok(out)
    }

    /// All values of the table: the value column of one full enumeration.
    fn values(&self, table_name: &str) -> (r: Result<Vec<Vec<u8>>, KvError>)
        requires
            self.inv(),
        ensures
            r is Ok ==> values_match(
                (r->Ok_0).deep_view(),
                table_at(self.model(), table_name@),
            ),
            self.always_ok() ==> r is Ok,
    {
        let all = match self.iter(table_name) {
            Ok(v) => v,
            Err(e) => {
                return Err(e);
            },
        };
        let ghost s = all.deep_view();
        let ghost tm = table_at(self.model(), table_name@);
        let n = all.len();
        let mut out: Vec<Vec<u8>> = Vec::new();
        let mut i: usize = 0;
        while i < n
            invariant
                i <= n,
                n == all.len(),
                s == all.deep_view(),
                pairs_match(s, tm),
                out.len() == i,
                forall|j: int| 0 <= j < i ==> out.deep_view()[j] == s[j].1,
            decreases n - i,
        {
            let ghost prev = out.deep_view();
            out.push(crate::smap::bytes_clone(&all[i].1));
            proof {
                assert forall|j: int| 0 <= j < i + 1 implies out.deep_view()[j] == s[j].1 by {
                    if j < i {
                        assert(out@[j] == out@.drop_last()[j]);
                        assert(out.deep_view()[j] == prev[j]);
                    }
                }
            }
            i = i + 1;
        }
        proof {
            assert(out.deep_view() =~= s.map_values(|p: (Seq<char>, Seq<u8>)| p.1));
        }
        Ok(out)
    }

    /// Remove every entry of the table. A store may drop the table itself or
    /// leave it behind empty.
    fn delete_table(&mut self, table_name: &str) -> (r: Result<(), KvError>)
        requires
            old(self).inv(),
        ensures
            final(self).inv(),
            final(self).always_ok() == old(self).always_ok(),
            r is Ok ==> table_cleared(old(self).model(), final(self).model(), table_name@),
            old(self).always_ok() ==> r is Ok,
    {
        let ks = match self.keys(table_name) {
            Ok(v) => v,
            Err(e) => {
                return Err(e);
            },
        };
        let ghost m0 = self.model();
        let ghost tm0 = table_at(m0, table_name@);
        let ghost names = ks.deep_view();
        let n = ks.len();
        proof {
            assert(names.take(0).to_set() =~= Set::<Seq<char>>::empty());
            if m0.contains_key(table_name@) {
                assert(tm0.remove_keys(names.take(0).to_set()) =~= tm0);
                assert(m0.insert(table_name@, tm0) =~= m0);
            }
        }
        let mut i: usize = 0;
        while i < n
            invariant
                i <= n,
                n == ks.len(),
                names == ks.deep_view(),
                names_match(names, tm0.dom()),
                self.inv(),
                self.always_ok() == old(self).always_ok(),
                m0.contains_key(table_name@) ==> self.model() == m0.insert(
                    table_name@,
                    tm0.remove_keys(names.take(i as int).to_set()),
                ),
                !m0.contains_key(table_name@) ==> self.model() == m0,
            decreases n - i,
        {
            let ghost mpre = self.model();
            match self.remove(table_name, ks[i].as_str()) {
                Ok(_) => {},
                Err(e) => {
                    return Err(e);
                },
            }
            proof {
                crate::smap::lemma_take_to_set_step(names, i as int);
                if m0.contains_key(table_name@) {
                    assert(tm0.remove_keys(names.take(i as int).to_set()).remove(names[i as int])
                        =~= tm0.remove_keys(names.take(i + 1 as int).to_set()));
                    assert(self.model() =~= m0.insert(
                        table_name@,
                        tm0.remove_keys(names.take(i + 1 as int).to_set()),
                    ));
                } else {
                    assert(!mpre.contains_key(table_name@));
                }
            }
            i = i + 1;
        }
        proof {
            if m0.contains_key(table_name@) {
                assert(names.take(n as int) =~= names);
                assert forall|k: Seq<char>| tm0.contains_key(k) implies names.to_set().contains(
                    k,
                ) by {
                    let j = choose|j: int| 0 <= j < names.len() && #[trigger] names[j] == k;
                    assert(names.contains(k));
                }
                assert(tm0.remove_keys(names.to_set()) =~= Map::<Seq<char>, Seq<u8>>::empty());
            }
        }
        Ok(())
    }

    /// Remove every entry of every live table.
    fn clear(&mut self) -> (r: Result<(), KvError>)
        requires
            old(self).inv(),
        ensures
            final(self).inv(),
            final(self).always_ok() == old(self).always_ok(),
            r is Ok ==> cleared_all(old(self).model(), final(self).model()),
            old(self).always_ok() ==> r is Ok,
    {
        let ts = match self.table_names() {
            Ok(v) => v,
            Err(e) => {
                return Err(e);
            },
        };
        let ghost m0 = self.model();
        let ghost names = ts.deep_view();
        let n = ts.len();
        let mut i: usize = 0;
        while i < n
            invariant
                i <= n,
                n == ts.len(),
                names == ts.deep_view(),
                names_match(names, m0.dom()),
                self.inv(),
                self.always_ok() == old(self).always_ok(),
                forall|j: int|
                    i <= j < n ==> (self.model().contains_key(#[trigger] names[j])
                        == m0.contains_key(names[j]) && (self.model().contains_key(names[j])
                        ==> self.model()[names[j]] == m0[names[j]])),
                forall|j: int|
                    0 <= j < i ==> (self.model().contains_key(#[trigger] names[j])
                        ==> self.model()[names[j]] == Map::<Seq<char>, Seq<u8>>::empty()),
                forall|t: Seq<char>|
                    #[trigger] self.model().contains_key(t) ==> m0.contains_key(t),
            decreases n - i,
        {
            let ghost mpre = self.model();
            match self.delete_table(ts[i].as_str()) {
                Ok(_) => {},
                Err(e) => {
                    return Err(e);
                },
            }
            proof {
                let t0 = names[i as int];
                let m1 = self.model();
                let empty_tbl = Map::<Seq<char>, Seq<u8>>::empty();
                assert(m1 == mpre.remove(t0) || m1 == (if mpre.contains_key(t0) {
                    mpre.insert(t0, empty_tbl)
                } else {
                    mpre
                }));
                assert forall|j: int| i + 1 <= j < n implies (m1.contains_key(#[trigger] names[j])
                    == m0.contains_key(names[j]) && (m1.contains_key(names[j])
                    ==> m1[names[j]] == m0[names[j]])) by {
                    assert(names[j] != t0);
                    assert(mpre.contains_key(names[j]) == m0.contains_key(names[j]));
                }
                assert forall|j: int| 0 <= j < i + 1 implies (m1.contains_key(#[trigger] names[j])
                    ==> m1[names[j]] == empty_tbl) by {
                    if j < i {
                        assert(names[j] != t0);
                        assert(mpre.contains_key(names[j]) ==> mpre[names[j]] == empty_tbl);
                    }
                }
                assert forall|t: Seq<char>| #[trigger] m1.contains_key(t) implies m0.contains_key(
                    t,
                ) by {
                    if m1 == mpre.remove(t0) {
                        assert(mpre.contains_key(t));
                    } else if mpre.contains_key(t0) {
                        assert(mpre.contains_key(t));
                    } else {
                        assert(m1 == mpre);
                    }
                }
            }
            i = i + 1;
        }
        proof {
            assert forall|t: Seq<char>| self.model().contains_key(t) implies m0.contains_key(t)
                && self.model()[t] == Map::<Seq<char>, Seq<u8>>::empty() by {
                assert(m0.contains_key(t));
                assert(m0.dom().contains(t));
                let j = choose|j: int| 0 <= j < names.len() && #[trigger] names[j] == t;
                assert(self.model().contains_key(names[j]) ==> self.model()[names[j]] == Map::<
                    Seq<char>,
                    Seq<u8>,
                >::empty());
            }
            assert(self.model().dom().subset_of(m0.dom()));
        }
        Ok(())
    }
}

/// A full enumeration of a table, filtered down to the keys starting with
/// `p`, enumerates exactly the prefix-restricted table.
pub proof fn lemma_prefix_filter_pairs(
    s: Seq<(Seq<char>, Seq<u8>)>,
    tm: Map<Seq<char>, Seq<u8>>,
    p: Seq<char>,
)
    requires
        pairs_match(s, tm),
    ensures
        pairs_match(
            s.filter(|pr: (Seq<char>, Seq<u8>)| spec_is_prefix(p, pr.0)),
            prefix_filter(tm, p),
        ),
{
    let pred = |pr: (Seq<char>, Seq<u8>)| spec_is_prefix(p, pr.0);
    let f = s.filter(pred);
    let fm = prefix_filter(tm, p);
    crate::smap::lemma_filter_elements(s, pred);
    assert forall|a: int| 0 <= a < f.len() implies fm.contains_key(#[trigger] f[a].0) && fm[f[a].0]
        == f[a].1 by {
        assert(s.contains(f[a]));
        let l = choose|l: int| 0 <= l < s.len() && s[l] == f[a];
        assert(tm.contains_key(s[l].0) && tm[s[l].0] == s[l].1);
    }
    assert forall|k: Seq<char>| fm.contains_key(k) implies exists|a: int|
        0 <= a < f.len() && (#[trigger] f[a]).0 == k by {
        assert(tm.contains_key(k));
        let l = choose|l: int| 0 <= l < s.len() && (#[trigger] s[l]).0 == k;
        assert(pred(s[l]));
        assert(f.contains(s[l]));
        let a = choose|a: int| 0 <= a < f.len() && f[a] == s[l];
        assert(f[a].0 == k);
    }
}

/// `vs` lists the values of one full enumeration of the table `tm`.
pub open spec fn values_match(vs: Seq<Seq<u8>>, tm: Map<Seq<char>, Seq<u8>>) -> bool {
    exists|s: Seq<(Seq<char>, Seq<u8>)>|
        pairs_match(s, tm) && vs == s.map_values(|p: (Seq<char>, Seq<u8>)| p.1)
}

} // verus!
