use vstd::prelude::*;

use crate::error::KvError;
use crate::kvdb::{KeyValueDB, TablesView, table_at, tbl_get, tbl_insert, tbl_remove};
use crate::overlay::{OverlayDB, is_reserved, meta_deleted_name, meta_versions_name, reserved_name};
use crate::smap::{StrMap, assoc_map, bytes_clone, distinct_keys, names_match, pairs_match};
use crate::transactional::{KVReadTransaction, KVWriteTransaction, TransactionalKVDB, apply_delta,
    apply_tx};

verus! {

/// A table delta has no effect when it is empty.
pub proof fn lemma_apply_delta_empty(tm: Map<Seq<char>, Seq<u8>>)
    ensures
        apply_delta(tm, Map::empty()) == tm,
{
    assert(apply_delta(tm, Map::empty()) =~= tm);
}

/// Recording a pending write is an insert on the resulting table.
pub proof fn lemma_apply_delta_insert(
    tm: Map<Seq<char>, Seq<u8>>,
    d: Map<Seq<char>, Option<Seq<u8>>>,
    k: Seq<char>,
    v: Seq<u8>,
)
    ensures
        apply_delta(tm, d.insert(k, Some(v))) == apply_delta(tm, d).insert(k, v),
{
    assert(apply_delta(tm, d.insert(k, Some(v))) =~= apply_delta(tm, d).insert(k, v));
}

/// Recording a pending removal is a removal on the resulting table.
pub proof fn lemma_apply_delta_remove(
    tm: Map<Seq<char>, Seq<u8>>,
    d: Map<Seq<char>, Option<Seq<u8>>>,
    k: Seq<char>,
)
    ensures
        apply_delta(tm, d.insert(k, None)) == apply_delta(tm, d).remove(k),
{
    assert(apply_delta(tm, d.insert(k, None)) =~= apply_delta(tm, d).remove(k));
}

/// A transaction with nothing pending and nothing deleted publishes the base
/// state unchanged.
pub proof fn lemma_apply_tx_empty(b: TablesView)
    ensures
        apply_tx(
            b,
            Set::empty(),
            Map::<Seq<char>, Map<Seq<char>, Option<Seq<u8>>>>::empty(),
        ) == b,
{
    let e = Map::<Seq<char>, Map<Seq<char>, Option<Seq<u8>>>>::empty();
    assert forall|t: Seq<char>| #[trigger] b.contains_key(t) implies apply_tx(
        b,
        Set::empty(),
        e,
    )[t] == b[t] by {
        lemma_apply_delta_empty(b[t]);
    }
    assert(apply_tx(b, Set::empty(), e) =~= b);
}

/// What a read through a write transaction resolves to: a table deleted in
/// the transaction reads as absent; then a pending entry decides; then the
/// snapshot decides.
pub proof fn lemma_apply_tx_get(
    b: TablesView,
    dels: Set<Seq<char>>,
    pend: Map<Seq<char>, Map<Seq<char>, Option<Seq<u8>>>>,
    t: Seq<char>,
    k: Seq<char>,
)
    requires
        pend.contains_key(t) ==> !dels.contains(t),
    ensures
        tbl_get(apply_tx(b, dels, pend), t, k) == (if dels.contains(t) {
            None
        } else if pend.contains_key(t) && pend[t].contains_key(k) {
            pend[t][k]
        } else {
            tbl_get(b, t, k)
        }),
{
    let m = apply_tx(b, dels, pend);
    if dels.contains(t) {
        assert(!m.contains_key(t));
    } else if pend.contains_key(t) {
        assert(m.contains_key(t));
        assert(m[t] == apply_delta(
            if b.contains_key(t) {
                b[t]
            } else {
                Map::empty()
            },
            pend[t],
        ));
    } else {
        if b.contains_key(t) {
            lemma_apply_delta_empty(b[t]);
            assert(m[t] == b[t]);
        } else {
            assert(!m.contains_key(t));
        }
    }
}

/// A read handle of the overlay store: a deep snapshot of the visible
/// tables, unaffected by any later mutation of the store.
pub struct ReadTransaction {
    snap: StrMap<StrMap<Vec<u8>>>,
}

impl ReadTransaction {
    pub(crate) fn from_snapshot(snap: StrMap<StrMap<Vec<u8>>>) -> (r: Self)
        ensures
            r.visible() == snap@,
            r.rt_inv(),
            r.rt_ok(),
    {
        ReadTransaction { snap }
    }
}

impl KVReadTransaction for ReadTransaction {
    closed spec fn visible(&self) -> TablesView {
        self.snap@
    }

    open spec fn rt_inv(&self) -> bool {
        true
    }

    open spec fn rt_ok(&self) -> bool {
        true
    }

    fn get(&self, table_name: &str, key: &str) -> (r: Result<Option<Vec<u8>>, KvError>)
        ensures
            r is Ok,
    {
        match self.snap.get(table_name) {
            Some(tbl) => match tbl.get(key) {
                Some(v) => {
                    let out = bytes_clone(v);
                    proof {
                        assert(out.deep_view() =~= v.deep_view());
                    }
                    Ok(Some(out))
                },
                None => Ok(None),
            },
            None => Ok(None),
        }
    }

    fn iter(&self, table_name: &str) -> (r: Result<Vec<(String, Vec<u8>)>, KvError>)
        ensures
            r is Ok,
    {
        match self.snap.get(table_name) {
            Some(tbl) => Ok(tbl.to_pairs()),
            None => {
                let out: Vec<(String, Vec<u8>)> = Vec::new();
                proof {
                    assert(out.deep_view() =~= Seq::<(Seq<char>, Seq<u8>)>::empty());
                    assert(pairs_match(
                        out.deep_view(),
                        Map::<Seq<char>, Seq<u8>>::empty(),
                    ));
                }
                Ok(out)
            },
        }
    }

    fn table_names(&self) -> (r: Result<Vec<String>, KvError>)
        ensures
            r is Ok,
    {
        Ok(self.snap.keys())
    }
}

/// A write handle of the overlay store: the snapshot it began on, the
/// pending overlay (key to planned value or planned removal), and the set of
/// tables deleted within this transaction. The store itself is only touched
/// by `commit`.
pub struct WriteTransaction {
    snap: StrMap<StrMap<Vec<u8>>>,
    pending: StrMap<StrMap<Option<Vec<u8>>>>,
    dels: StrMap<()>,
}

impl WriteTransaction {
    pub(crate) fn from_snapshot(snap: StrMap<StrMap<Vec<u8>>>) -> (r: Self)
        requires
            !snap@.contains_key(meta_deleted_name()),
            !snap@.contains_key(meta_versions_name()),
        ensures
            r.rt_inv(),
            r.visible() == snap@,
            r.began_on() == snap@,
            forall|b: TablesView| #[trigger] r.apply(b) == b,
            forall|t: Seq<char>| #[trigger] r.undelete(t) == r.visible(),
    {
        let r = WriteTransaction { snap, pending: StrMap::new(), dels: StrMap::new() };
        proof {
            assert(r.dels@.dom() =~= Set::<Seq<char>>::empty());
            assert forall|b: TablesView| true implies #[trigger] r.apply(b) == b by {
                lemma_apply_tx_empty(b);
            }
            lemma_apply_tx_empty(snap@);
            assert forall|t: Seq<char>| true implies #[trigger] r.undelete(t) == r.visible() by {
                assert(r.dels@.dom().remove(t) =~= r.dels@.dom());
            }
        }
        r
    }

    /// Whether this transaction has marked the table deleted.
    pub closed spec fn tx_deleted(&self, t: Seq<char>) -> bool {
        self.dels@.dom().contains(t)
    }

    /// The snapshot this transaction began on.
    pub closed spec fn snap_view(&self) -> TablesView {
        self.snap@
    }
}

impl KVReadTransaction for WriteTransaction {
    closed spec fn visible(&self) -> TablesView {
        apply_tx(self.snap@, self.dels@.dom(), self.pending@)
    }

    closed spec fn rt_inv(&self) -> bool {
        &&& forall|t: Seq<char>|
            #[trigger] self.pending@.contains_key(t) ==> !self.dels@.dom().contains(t)
                && !reserved_name(t)
        &&& forall|t: Seq<char>| #[trigger] self.dels@.dom().contains(t) ==> !reserved_name(t)
        &&& !self.snap@.contains_key(meta_deleted_name())
        &&& !self.snap@.contains_key(meta_versions_name())
    }

    open spec fn rt_ok(&self) -> bool {
        true
    }

    fn get(&self, table_name: &str, key: &str) -> (r: Result<Option<Vec<u8>>, KvError>)
        ensures
            r is Ok,
    {
        proof {
            lemma_apply_tx_get(
                self.snap@,
                self.dels@.dom(),
                self.pending@,
                table_name@,
                key@,
            );
        }
        if self.dels.contains_key(table_name) {
            return Ok(None);
        }
        match self.pending.get(table_name) {
            Some(delta) => match delta.get(key) {
                Some(ov) => match ov {
                    Some(v) => {
                        let out = bytes_clone(v);
                        proof {
                            assert(ov.deep_view() == self.pending@[table_name@][key@]);
                            assert(out.deep_view() =~= v.deep_view());
                        }
                        Ok(Some(out))
                    },
                    None => {
                        proof {
                            assert(ov.deep_view() == self.pending@[table_name@][key@]);
                        }
                        Ok(None)
                    },
                },
                None => match self.snap.get(table_name) {
                    Some(tbl) => match tbl.get(key) {
                        Some(v) => {
                            let out = bytes_clone(v);
                            proof {
                                assert(out.deep_view() =~= v.deep_view());
                            }
                            Ok(Some(out))
                        },
                        None => Ok(None),
                    },
                    None => Ok(None),
                },
            },
            None => match self.snap.get(table_name) {
                Some(tbl) => match tbl.get(key) {
                    Some(v) => {
                        let out = bytes_clone(v);
                        proof {
                            assert(out.deep_view() =~= v.deep_view());
                        }
                        Ok(Some(out))
                    },
                    None => Ok(None),
                },
                None => Ok(None),
            },
        }
    }

    fn iter(&self, table_name: &str) -> (r: Result<Vec<(String, Vec<u8>)>, KvError>)
        ensures
            r is Ok,
    {
        let ghost vt = table_at(self.visible(), table_name@);
        if self.dels.contains_key(table_name) {
            let out: Vec<(String, Vec<u8>)> = Vec::new();
            proof {
                assert(!self.pending@.contains_key(table_name@));
                assert(!self.visible().contains_key(table_name@));
                assert(out.deep_view() =~= Seq::<(Seq<char>, Seq<u8>)>::empty());
                assert(pairs_match(out.deep_view(), vt));
            }
            return Ok(out);
        }
        let mut tbl: StrMap<Vec<u8>> = match self.snap.get(table_name) {
            Some(x) => x.duplicate(),
            None => StrMap::new(),
        };
        let ghost base_t = tbl@;
        proof {
            assert(base_t == (if self.snap@.contains_key(table_name@) {
                self.snap@[table_name@]
            } else {
                Map::<Seq<char>, Seq<u8>>::empty()
            }));
        }
        match self.pending.get(table_name) {
            Some(delta) => {
                let n = delta.num_pairs();
                let ghost es = delta.entries();
                let mut i: usize = 0;
                proof {
                    assert(assoc_map(es.take(0)) =~= Map::<Seq<char>, Option<Seq<u8>>>::empty());
                    lemma_apply_delta_empty(base_t);
                }
                while i < n
                    invariant
                        i <= n,
                        n == es.len(),
                        es == delta.entries(),
                        distinct_keys(es),
                        assoc_map(es) == delta@,
                        tbl@ == apply_delta(base_t, assoc_map(es.take(i as int))),
                    decreases n - i,
                {
                    let (k, ov) = delta.pair_at(i);
                    let ghost dpre = assoc_map(es.take(i as int));
                    match ov {
                        Some(v) => {
                            let b = bytes_clone(v);
                            proof {
                                assert(b.deep_view() =~= v.deep_view());
                            }
                            tbl.insert(k.as_str(), b);
                            proof {
                                assert(es[i as int].1 == ov.deep_view());
                                lemma_apply_delta_insert(base_t, dpre, k@, v.deep_view());
                            }
                        },
                        None => {
                            tbl.remove(k.as_str());
                            proof {
                                assert(es[i as int].1 == ov.deep_view());
                                lemma_apply_delta_remove(base_t, dpre, k@);
                            }
                        },
                    }
                    proof {
                        assert(es.take(i + 1 as int).drop_last() =~= es.take(i as int));
                        assert(es.take(i + 1 as int).last() == es[i as int]);
                        assert(tbl@ =~= apply_delta(base_t, assoc_map(es.take(i + 1 as int))));
                    }
                    i = i + 1;
                }
                proof {
                    assert(es.take(n as int) =~= es);
                    assert(self.visible().contains_key(table_name@));
                    assert(vt =~= apply_delta(base_t, delta@));
                }
                Ok(tbl.to_pairs())
            },
            None => {
                proof {
                    lemma_apply_delta_empty(base_t);
                    if self.snap@.contains_key(table_name@) {
                        assert(self.visible().contains_key(table_name@));
                        assert(vt =~= base_t);
                    } else {
                        assert(!self.visible().contains_key(table_name@));
                        assert(vt =~= base_t);
                    }
                }
                Ok(tbl.to_pairs())
            },
        }
    }

    fn table_names(&self) -> (r: Result<Vec<String>, KvError>)
        ensures
            r is Ok,
    {
        let snap_names = self.snap.keys();
        let ghost sn = snap_names.deep_view();
        let ghost pred = (|nm: Seq<char>| !self.dels@.dom().contains(nm)
            && !self.pending@.contains_key(nm));
        let n = snap_names.len();
        let mut out: Vec<String> = Vec::new();
        let mut i: usize = 0;
        proof {
            assert(sn.take(0) =~= Seq::<Seq<char>>::empty());
            assert(out.deep_view() =~= sn.take(0).filter(pred));
        }
        while i < n
            invariant
                i <= n,
                n == snap_names.len(),
                sn == snap_names.deep_view(),
                names_match(sn, self.snap@.dom()),
                pred == (|nm: Seq<char>| !self.dels@.dom().contains(nm)
                    && !self.pending@.contains_key(nm)),
                out.deep_view() == sn.take(i as int).filter(pred),
            decreases n - i,
        {
            let ghost prev = out.deep_view();
            proof {
                reveal(Seq::filter);
                assert(sn.take(i + 1 as int).drop_last() =~= sn.take(i as int));
                assert(sn.take(i + 1 as int).last() == sn[i as int]);
            }
            if !self.dels.contains_key(snap_names[i].as_str()) && !self.pending.contains_key(
                snap_names[i].as_str(),
            ) {
                out.push(snap_names[i].clone());
                proof {
                    assert(out.deep_view() =~= prev.push(sn[i as int]));
                    assert(pred(sn[i as int]));
                }
            } else {
                proof {
                    assert(!pred(sn[i as int]));
                }
            }
            i = i + 1;
        }
        proof {
            assert(sn.take(n as int) =~= sn);
        }
        let ghost mid = out.deep_view();
        // append the tables this transaction wrote to
        let pend_names = self.pending.keys();
        let ghost pn = pend_names.deep_view();
        let m = pend_names.len();
        let mut j: usize = 0;
        proof {
            assert(out.deep_view() =~= mid + pn.take(0));
        }
        while j < m
            invariant
                j <= m,
                m == pend_names.len(),
                pn == pend_names.deep_view(),
                names_match(pn, self.pending@.dom()),
                out.deep_view() == mid + pn.take(j as int),
            decreases m - j,
        {
            let ghost prev = out.deep_view();
            out.push(pend_names[j].clone());
            proof {
                assert(out.deep_view() =~= prev.push(pn[j as int]));
                assert(out.deep_view() =~= mid + pn.take(j + 1 as int));
            }
            j = j + 1;
        }
        proof {
            assert(pn.take(m as int) =~= pn);
            crate::listing::lemma_filter_names(sn, pred);
            let od = out.deep_view();
            let dom = self.visible().dom();
            assert(mid == sn.filter(pred));
            // every listed name is visible
            assert forall|a: int| 0 <= a < od.len() implies dom.contains(#[trigger] od[a]) by {
                if a < mid.len() {
                    assert(od[a] == mid[a]);
                    assert(sn.contains(mid[a]) && pred(mid[a]));
                    let l = choose|l: int| 0 <= l < sn.len() && sn[l] == mid[a];
                    assert(self.snap@.dom().contains(sn[l]));
                    assert(self.visible().contains_key(mid[a]));
                } else {
                    assert(od[a] == pn[a - mid.len()]);
                    assert(self.pending@.dom().contains(od[a]));
                    assert(self.visible().contains_key(od[a]));
                }
            }
            // every visible name is listed
            assert forall|t: Seq<char>| dom.contains(t) implies exists|a: int|
                0 <= a < od.len() && #[trigger] od[a] == t by {
                if self.pending@.contains_key(t) {
                    let l = choose|l: int| 0 <= l < pn.len() && #[trigger] pn[l] == t;
                    assert(od[mid.len() + l] == t);
                } else {
                    assert(self.snap@.contains_key(t) && !self.dels@.dom().contains(t));
                    let l = choose|l: int| 0 <= l < sn.len() && #[trigger] sn[l] == t;
                    assert(pred(sn[l]));
                    assert(mid.contains(sn[l]));
                    let a = choose|a: int| 0 <= a < mid.len() && mid[a] == sn[l];
                    assert(od[a] == t);
                }
            }
            // no name twice
            assert forall|a: int, b: int| 0 <= a < b < od.len() implies od[a] != od[b] by {
                if b < mid.len() {
                    assert(forall|x: int, y: int| 0 <= x < y < sn.len() ==> sn[x] != sn[y]);
                    assert(od[a] == mid[a] && od[b] == mid[b]);
                } else if a < mid.len() {
                    assert(od[a] == mid[a]);
                    assert(pred(mid[a]));
                    assert(od[b] == pn[b - mid.len()]);
                    assert(self.pending@.dom().contains(od[b]));
                } else {
                    assert(od[a] == pn[a - mid.len()] && od[b] == pn[b - mid.len()]);
                }
            }
            assert(names_match(od, dom));
        }
        Ok(out)
    }
}

impl KVWriteTransaction for WriteTransaction {
    type DB = OverlayDB;

    closed spec fn apply(&self, b: TablesView) -> TablesView {
        apply_tx(b, self.dels@.dom(), self.pending@)
    }

    closed spec fn began_on(&self) -> TablesView {
        self.snap@
    }

    closed spec fn undelete(&self, t: Seq<char>) -> TablesView {
        apply_tx(self.snap@, self.dels@.dom().remove(t), self.pending@)
    }

    open spec fn wt_ok(&self) -> bool {
        true
    }

    /// Reserved table names are refused; any other write is recorded in the
    /// overlay, undoing a transaction-local deletion of the table first.
    fn insert(&mut self, table_name: &str, key: &str, value: &[u8]) -> (r: Result<
        Option<Vec<u8>>,
        KvError,
    >)
        ensures
            reserved_name(table_name@) <==> r == Err::<Option<Vec<u8>>, KvError>(
                KvError::InvalidInput,
            ),
            !reserved_name(table_name@) ==> r is Ok,
            !old(self).tx_deleted(table_name@) ==> old(self).undelete(table_name@) == old(
                self,
            ).visible(),
    {
        proof {
            undelete_frame(&*self, table_name@);
        }
        if is_reserved(table_name) {
            return Err(KvError::InvalidInput);
        }
        // undo a transaction-local deletion of the table first
        self.dels.remove(table_name);
        proof {
            assert(self.visible() == old(self).undelete(table_name@));
            assert forall|t2: Seq<char>| #[trigger] self.pending@.contains_key(t2) implies !self
                .dels@.dom().contains(t2) && !reserved_name(t2) by {
                assert(old(self).pending@.contains_key(t2));
            }
            assert forall|t2: Seq<char>| #[trigger] self.dels@.dom().contains(t2) implies
                !reserved_name(t2) by {
                assert(old(self).dels@.dom().contains(t2));
            }
        }
        let old_v = match self.get(table_name, key) {
            Ok(v) => v,
            Err(e) => {
                return Err(e);
            },
        };
        let mut delta: StrMap<Option<Vec<u8>>> = match self.pending.remove(table_name) {
            Some(d) => d,
            None => StrMap::new(),
        };
        let ghost d0 = delta@;
        let v = vstd::slice::slice_to_vec(value);
        proof {
            assert(v.deep_view() =~= value@);
        }
        delta.insert(key, Some(v));
        self.pending.insert(table_name, delta);
        proof {
            assert forall|t2: Seq<char>| #[trigger] self.pending@.contains_key(t2) implies !self
                .dels@.dom().contains(t2) && !reserved_name(t2) by {
                if t2 != table_name@ {
                    assert(old(self).pending@.contains_key(t2));
                }
            }
            assert forall|t2: Seq<char>| #[trigger] self.dels@.dom().contains(t2) implies
                !reserved_name(t2) by {
                assert(old(self).dels@.dom().contains(t2));
            }
            lemma_insert_effect(
                self.snap_view(),
                old(self).dels@.dom().remove(table_name@),
                old(self).pending@,
                table_name@,
                key@,
                value@,
                d0,
            );
        }
        Ok(old_v)
    }

    /// A removal is recorded only when the key is currently visible;
    /// removing from a table deleted in this transaction, or from a reserved
    /// name, reports absence.
    fn remove(&mut self, table_name: &str, key: &str) -> (r: Result<Option<Vec<u8>>, KvError>)
        ensures
            !reserved_name(table_name@) ==> r is Ok,
            reserved_name(table_name@) <==> r == Err::<Option<Vec<u8>>, KvError>(
                KvError::InvalidInput,
            ),
    {
        proof {
            undelete_frame(&*self, table_name@);
        }
        if is_reserved(table_name) {
            return Err(KvError::InvalidInput);
        }
        if self.dels.contains_key(table_name) {
            proof {
                lemma_apply_tx_get(
                    self.snap@,
                    self.dels@.dom(),
                    self.pending@,
                    table_name@,
                    key@,
                );
                assert(self.visible() =~= tbl_remove(old(self).visible(), table_name@, key@));
            }
            return Ok(None);
        }
        let old_v = match self.get(table_name, key) {
            Ok(v) => v,
            Err(e) => {
                return Err(e);
            },
        };
        if old_v.is_none() {
            proof {
                let v0 = self.visible();
                if v0.contains_key(table_name@) {
                    assert(!v0[table_name@].contains_key(key@));
                    assert(v0[table_name@].remove(key@) =~= v0[table_name@]);
                    assert(v0.insert(table_name@, v0[table_name@].remove(key@)) =~= v0);
                }
                assert(self.visible() =~= tbl_remove(old(self).visible(), table_name@, key@));
            }
            return Ok(None);
        }
        let ghost v0 = self.visible();
        let mut delta: StrMap<Option<Vec<u8>>> = match self.pending.remove(table_name) {
            Some(d) => d,
            None => StrMap::new(),
        };
        let ghost d0 = delta@;
        delta.insert(key, None);
        self.pending.insert(table_name, delta);
        proof {
            assert forall|t2: Seq<char>| #[trigger] self.pending@.contains_key(t2) implies !self
                .dels@.dom().contains(t2) && !reserved_name(t2) by {
                if t2 != table_name@ {
                    assert(old(self).pending@.contains_key(t2));
                }
            }
            assert(v0.contains_key(table_name@));
            lemma_remove_effect_view(
                self.snap_view(),
                old(self).dels@.dom(),
                old(self).pending@,
                table_name@,
                key@,
                d0,
            );
        }
        Ok(old_v)
    }

    fn commit(self, db: &mut OverlayDB) -> (r: Result<(), KvError>)
        ensures
            r is Ok,
    {
        let WriteTransaction { snap: _, pending, dels } = self;
        let ghost dset = dels@.dom();
        let ghost pmap = pending@;
        let ghost m0 = db.model();
        // first the transaction-local deletions
        let del_names = dels.into_pairs();
        let ghost dn = del_names.deep_view();
        proof {
            assert(dn =~= crate::smap::pair_views(del_names@));
        }
        let n = del_names.len();
        let mut i: usize = 0;
        proof {
            assert(name_set(dn.take(0)) =~= Set::<Seq<char>>::empty());
            assert(m0.remove_keys(name_set(dn.take(0))) =~= m0);
            assert forall|jj: int| 0 <= jj < dn.len() implies !reserved_name(
                (#[trigger] dn[jj]).0,
            ) by {
                crate::smap::lemma_assoc_at(dn, jj);
                assert(dset.contains(dn[jj].0));
            }
        }
        while i < n
            invariant
                i <= n,
                n == del_names.len(),
                dn == del_names.deep_view(),
                db.inv(),
                forall|j: int| 0 <= j < n ==> !reserved_name((#[trigger] dn[j]).0),
                db.model() == m0.remove_keys(name_set(dn.take(i as int))),
            decreases n - i,
        {
            proof {
                assert(!reserved_name(dn[i as int].0));
                assert(del_names@[i as int].0@ == dn[i as int].0);
            }
            let res = db.delete_table(del_names[i].0.as_str());
            proof {
                assert(res is Ok);
                lemma_name_set_step(dn, i as int);
                assert(db.model() =~= m0.remove_keys(name_set(dn.take(i + 1 as int))));
            }
            i = i + 1;
        }
        let ghost m1 = db.model();
        proof {
            assert(dn.take(n as int) =~= dn);
            lemma_name_set_is_dom(dn, dset);
            assert(m1 == m0.remove_keys(dset));
        }
        // then the pending deltas, table by table
        let pend_pairs = pending.into_pairs();
        let ghost pp = pend_pairs.deep_view();
        proof {
            assert(pp =~= crate::smap::pair_views(pend_pairs@));
        }
        let m = pend_pairs.len();
        let mut j: usize = 0;
        proof {
            assert(pp.take(0) =~= Seq::<(Seq<char>, Map<Seq<char>, Option<Seq<u8>>>)>::empty());
            assert(assoc_map(pp.take(0)) =~= Map::<
                Seq<char>,
                Map<Seq<char>, Option<Seq<u8>>>,
            >::empty());
            lemma_apply_tx_partial_empty(m0, dset, m1);
            assert forall|ll: int| 0 <= ll < pp.len() implies !reserved_name(
                (#[trigger] pp[ll]).0,
            ) && !dset.contains(pp[ll].0) by {
                crate::smap::lemma_assoc_at(pp, ll);
                assert(pmap.contains_key(pp[ll].0));
            }
        }
        while j < m
            invariant
                j <= m,
                m == pend_pairs.len(),
                pp == pend_pairs.deep_view(),
                distinct_keys(pp),
                assoc_map(pp) == pmap,
                db.inv(),
                forall|l: int|
                    0 <= l < m ==> !reserved_name((#[trigger] pp[l]).0) && !dset.contains(
                        pp[l].0,
                    ),
                db.model() == apply_tx(m0, dset, assoc_map(pp.take(j as int))),
            decreases m - j,
        {
            let ghost t = pend_pairs@[j as int].0@;
            let ghost mpre = db.model();
            let ghost base_t = table_at(mpre, t);
            proof {
                assert(!reserved_name((pp[j as int]).0) && !dset.contains(pp[j as int].0));
            }
            db.ensure_table(pend_pairs[j].0.as_str());
            let ghost es = pend_pairs@[j as int].1.entries();
            let nk = pend_pairs[j].1.num_pairs();
            let mut ki: usize = 0;
            proof {
                assert(assoc_map(es.take(0)) =~= Map::<Seq<char>, Option<Seq<u8>>>::empty());
                lemma_apply_delta_empty(base_t);
                assert(table_at(db.model(), t) =~= apply_delta(
                    base_t,
                    assoc_map(es.take(0)),
                ));
                assert(db.model() =~= mpre.insert(
                    t,
                    apply_delta(base_t, assoc_map(es.take(0))),
                ));
            }
            while ki < nk
                invariant
                    ki <= nk,
                    nk == es.len(),
                    es == pend_pairs@[j as int].1.entries(),
                    j < m == pend_pairs.len(),
                    distinct_keys(es),
                    assoc_map(es) == pend_pairs@[j as int].1@,
                    t == pend_pairs@[j as int].0@,
                    !reserved_name(t),
                    db.inv(),
                    db.model() == mpre.insert(
                        t,
                        apply_delta(base_t, assoc_map(es.take(ki as int))),
                    ),
                decreases nk - ki,
            {
                let (k, ov) = pend_pairs[j].1.pair_at(ki);
                let ghost dpre = assoc_map(es.take(ki as int));
                proof {
                    assert(pend_pairs@[j as int].0@ == t);
                    assert(!reserved_name(t));
                }
                match ov {
                    Some(v) => {
                        let ghost mcall = db.model();
                        let res = db.insert(pend_pairs[j].0.as_str(), k.as_str(), v.as_slice());
                        proof {
                            assert(res is Ok);
                            assert(es[ki as int].1 == ov.deep_view());
                            assert(v.deep_view() =~= v@);
                            lemma_apply_delta_insert(base_t, dpre, k@, v@);
                            assert(table_at(mcall, t) == apply_delta(base_t, dpre));
                            assert(db.model() == mcall.insert(
                                t,
                                apply_delta(base_t, dpre).insert(k@, v@),
                            ));
                        }
                    },
                    None => {
                        let ghost mcall = db.model();
                        let res = db.remove(pend_pairs[j].0.as_str(), k.as_str());
                        proof {
                            assert(res is Ok);
                            assert(es[ki as int].1 == ov.deep_view());
                            lemma_apply_delta_remove(base_t, dpre, k@);
                            assert(table_at(mcall, t) == apply_delta(base_t, dpre));
                            assert(db.model() =~= mcall.insert(
                                t,
                                apply_delta(base_t, dpre).remove(k@),
                            ));
                        }
                    },
                }
                proof {
                    assert(es.take(ki + 1 as int).drop_last() =~= es.take(ki as int));
                    assert(es.take(ki + 1 as int).last() == es[ki as int]);
                    assert(db.model() =~= mpre.insert(
                        t,
                        apply_delta(base_t, assoc_map(es.take(ki + 1 as int))),
                    ));
                }
                ki = ki + 1;
            }
            proof {
                assert(es.take(nk as int) =~= es);
                assert(pp.take(j + 1 as int).drop_last() =~= pp.take(j as int));
                assert(pp.take(j + 1 as int).last() == pp[j as int]);
                assert forall|l: int| 0 <= l < pp.take(j as int).len() implies (#[trigger] pp.take(
                    j as int,
                )[l]).0 != t by {
                    assert(pp.take(j as int)[l] == pp[l]);
                }
                crate::smap::lemma_assoc_absent(pp.take(j as int), t);
                lemma_apply_tx_pend_step(m0, dset, assoc_map(pp.take(j as int)), t,
                    pend_pairs@[j as int].1@);
                assert(db.model() =~= apply_tx(m0, dset, assoc_map(pp.take(j + 1 as int))));
            }
            j = j + 1;
        }
        proof {
            assert(pp.take(m as int) =~= pp);
        }
        Ok(())
    }

    fn abort(self) -> (r: Result<(), KvError>)
        ensures
            r is Ok,
    {
        Ok(())
    }

    /// Deleting a table in the transaction drops its pending entries and
    /// hides it; deleting a reserved name is refused.
    fn delete_table(&mut self, table_name: &str) -> (r: Result<(), KvError>)
        ensures
            reserved_name(table_name@) <==> r == Err::<(), KvError>(KvError::InvalidInput),
            !reserved_name(table_name@) ==> r is Ok,
            r is Ok ==> final(self).visible() == old(self).visible().remove(table_name@),
    {
        if is_reserved(table_name) {
            return Err(KvError::InvalidInput);
        }
        self.pending.remove(table_name);
        self.dels.insert(table_name, ());
        proof {
            assert forall|t2: Seq<char>| #[trigger] self.pending@.contains_key(t2) implies !self
                .dels@.dom().contains(t2) && !reserved_name(t2) by {
                assert(old(self).pending@.contains_key(t2));
            }
            assert forall|t2: Seq<char>| #[trigger] self.dels@.dom().contains(t2) implies
                !reserved_name(t2) by {
                if t2 != table_name@ {
                    assert(old(self).dels@.dom().contains(t2));
                }
            }
            assert(self.visible() =~= old(self).visible().remove(table_name@));
            assert(old(self).visible().remove(table_name@).dom().subset_of(
                old(self).visible().dom(),
            ));
        }
        Ok(())
    }

    /// Clearing marks every visible table deleted: afterwards this
    /// transaction sees no table at all.
    fn clear(&mut self) -> (r: Result<(), KvError>)
        ensures
            r is Ok,
            final(self).visible() == Map::<Seq<char>, Map<Seq<char>, Seq<u8>>>::empty(),
    {
        let ts = match self.table_names() {
            Ok(v) => v,
            Err(e) => {
                return Err(e);
            },
        };
        let ghost m0 = self.visible();
        let ghost names = ts.deep_view();
        let n = ts.len();
        let mut i: usize = 0;
        proof {
            lemma_visible_excludes_reserved(&*self);
            assert forall|j: int| 0 <= j < n implies !reserved_name(#[trigger] names[j]) by {
                assert(m0.dom().contains(names[j]));
            }
            assert(names.take(0).to_set() =~= Set::<Seq<char>>::empty());
            assert(m0.remove_keys(names.take(0).to_set()) =~= m0);
        }
        while i < n
            invariant
                i <= n,
                n == ts.len(),
                names == ts.deep_view(),
                names_match(names, m0.dom()),
                forall|j: int| 0 <= j < n ==> !reserved_name(#[trigger] names[j]),
                self.rt_inv(),
                self.rt_ok() == old(self).rt_ok(),
                self.wt_ok() == old(self).wt_ok(),
                self.began_on() == old(self).began_on(),
                self.visible() == m0.remove_keys(names.take(i as int).to_set()),
            decreases n - i,
        {
            proof {
                assert(!reserved_name(names[i as int]));
            }
            let res = self.delete_table(ts[i].as_str());
            proof {
                assert(res is Ok);
                crate::smap::lemma_take_to_set_step(names, i as int);
                assert(self.visible() =~= m0.remove_keys(names.take(i + 1 as int).to_set()));
            }
            i = i + 1;
        }
        proof {
            assert(names.take(n as int) =~= names);
            assert forall|t: Seq<char>| m0.contains_key(t) implies names.to_set().contains(t) by {
                let j = choose|j: int| 0 <= j < names.len() && #[trigger] names[j] == t;
                assert(names.contains(t));
            }
            assert(self.visible() =~= Map::<Seq<char>, Map<Seq<char>, Seq<u8>>>::empty());
        }
        Ok(())
    }
}

/// A write transaction never sees a reserved table: its snapshot, overlay
/// and deletion set all exclude the two reserved names, so neither reads nor
/// listings can reach them.
pub proof fn lemma_visible_excludes_reserved(w: &WriteTransaction)
    requires
        w.rt_inv(),
    ensures
        forall|t: Seq<char>| reserved_name(t) ==> !(#[trigger] w.visible().contains_key(t)),
{
    assert forall|t: Seq<char>| reserved_name(t) implies !(#[trigger] w.visible().contains_key(
        t,
    )) by {
        assert(!w.pending@.contains_key(t));
        assert(!w.snap@.contains_key(t));
    }
}

/// The key set of a sequence of named pairs.
pub open spec fn name_set<T>(s: Seq<(Seq<char>, T)>) -> Set<Seq<char>> {
    Set::new(|t: Seq<char>| exists|j: int| 0 <= j < s.len() && (#[trigger] s[j]).0 == t)
}

pub proof fn lemma_name_set_step<T>(s: Seq<(Seq<char>, T)>, i: int)
    requires
        0 <= i < s.len(),
    ensures
        name_set(s.take(i + 1)) == name_set(s.take(i)).insert(s[i].0),
{
    assert forall|t: Seq<char>| name_set(s.take(i + 1)).contains(t) implies name_set(
        s.take(i),
    ).contains(t) || t == s[i].0 by {
        let j = choose|j: int| 0 <= j < s.take(i + 1).len() && (#[trigger] s.take(i + 1)[j]).0 == t;
        if j < i {
            assert(s.take(i)[j].0 == t);
        }
    }
    assert forall|t: Seq<char>| name_set(s.take(i)).contains(t) implies name_set(
        s.take(i + 1),
    ).contains(t) by {
        let j = choose|j: int| 0 <= j < s.take(i).len() && (#[trigger] s.take(i)[j]).0 == t;
        assert(s.take(i + 1)[j].0 == t);
    }
    assert(s.take(i + 1)[i].0 == s[i].0);
    assert(name_set(s.take(i + 1)).contains(s[i].0));
    assert(name_set(s.take(i + 1)) =~= name_set(s.take(i)).insert(s[i].0));
}

pub proof fn lemma_name_set_is_dom<T>(s: Seq<(Seq<char>, T)>, d: Set<Seq<char>>)
    requires
        distinct_keys(s),
        assoc_map(s).dom() == d,
    ensures
        name_set(s) == d,
{
    assert forall|t: Seq<char>| name_set(s).contains(t) implies d.contains(t) by {
        let j = choose|j: int| 0 <= j < s.len() && (#[trigger] s[j]).0 == t;
        crate::smap::lemma_assoc_at(s, j);
    }
    assert forall|t: Seq<char>| d.contains(t) implies name_set(s).contains(t) by {
        crate::smap::lemma_assoc_contains(s, t);
        let j = choose|j: int| 0 <= j < s.len() && (#[trigger] s[j]).0 == t;
    }
    assert(name_set(s) =~= d);
}

/// With an empty pending map, committing applies only the deletions.
pub proof fn lemma_apply_tx_partial_empty(m0: TablesView, dels: Set<Seq<char>>, m1: TablesView)
    requires
        m1 == m0.remove_keys(dels),
    ensures
        m1 == apply_tx(m0, dels, Map::<Seq<char>, Map<Seq<char>, Option<Seq<u8>>>>::empty()),
{
    let e = Map::<Seq<char>, Map<Seq<char>, Option<Seq<u8>>>>::empty();
    assert forall|t: Seq<char>| #[trigger] apply_tx(m0, dels, e).contains_key(t) implies
        apply_tx(m0, dels, e)[t] == m0[t] by {
        lemma_apply_delta_empty(m0[t]);
    }
    assert(apply_tx(m0, dels, e) =~= m0.remove_keys(dels));
}

/// Applying one more pending table to a partially committed state.
pub proof fn lemma_apply_tx_pend_step(
    m0: TablesView,
    dels: Set<Seq<char>>,
    pend: Map<Seq<char>, Map<Seq<char>, Option<Seq<u8>>>>,
    t: Seq<char>,
    d: Map<Seq<char>, Option<Seq<u8>>>,
)
    requires
        !dels.contains(t),
        !pend.contains_key(t),
    ensures
        apply_tx(m0, dels, pend.insert(t, d)) == apply_tx(m0, dels, pend).insert(
            t,
            apply_delta(table_at(apply_tx(m0, dels, pend), t), d),
        ),
{
    let lhs = apply_tx(m0, dels, pend.insert(t, d));
    let mid = apply_tx(m0, dels, pend);
    assert(table_at(mid, t) == (if m0.contains_key(t) {
        m0[t]
    } else {
        Map::<Seq<char>, Seq<u8>>::empty()
    })) by {
        if m0.contains_key(t) {
            lemma_apply_delta_empty(m0[t]);
        } else {
            lemma_apply_delta_empty(Map::<Seq<char>, Seq<u8>>::empty());
        }
    }
    assert(lhs =~= mid.insert(t, apply_delta(table_at(mid, t), d)));
}

/// Commit publishes the transaction's own view: what a write transaction
/// sees is exactly the store state its commit produces on the state it began
/// on — the whole overlay lands as one unit. An aborted transaction, which
/// holds no reference to any store, publishes nothing at all.
pub proof fn lemma_commit_publishes_the_view(w: &WriteTransaction)
    ensures
        w.visible() == w.apply(w.began_on()),
{
}

/// Removing one table from the deletion set changes no other table of the
/// published view, and changes nothing at all when the table was not marked
/// deleted or is visible.
proof fn undelete_frame(w: &WriteTransaction, t: Seq<char>)
    requires
        w.rt_inv(),
    ensures
        w.undelete(t).remove(t) == w.visible().remove(t),
        !w.tx_deleted(t) ==> w.undelete(t) == w.visible(),
        w.visible().contains_key(t) ==> w.undelete(t) == w.visible(),
{
    assert(w.undelete(t).remove(t) =~= w.visible().remove(t));
    if !w.tx_deleted(t) {
        assert(w.undelete(t) =~= w.visible());
    }
    if w.visible().contains_key(t) && w.tx_deleted(t) {
        assert(w.undelete(t) =~= w.visible());
    }
}

/// Recording a pending write publishes as a plain insert on the view.
proof fn lemma_insert_effect(
    snap: TablesView,
    dels: Set<Seq<char>>,
    pend: Map<Seq<char>, Map<Seq<char>, Option<Seq<u8>>>>,
    t: Seq<char>,
    k: Seq<char>,
    v: Seq<u8>,
    d0: Map<Seq<char>, Option<Seq<u8>>>,
)
    requires
        !dels.contains(t),
        d0 == (if pend.contains_key(t) {
            pend[t]
        } else {
            Map::<Seq<char>, Option<Seq<u8>>>::empty()
        }),
    ensures
        apply_tx(snap, dels, pend.insert(t, d0.insert(k, Some(v)))) == tbl_insert(
            apply_tx(snap, dels, pend),
            t,
            k,
            v,
        ),
{
    let u = apply_tx(snap, dels, pend);
    let base_t = if snap.contains_key(t) && !dels.contains(t) {
        snap[t]
    } else {
        Map::<Seq<char>, Seq<u8>>::empty()
    };
    assert(table_at(u, t) == apply_delta(base_t, d0)) by {
        if !pend.contains_key(t) {
            lemma_apply_delta_empty(base_t);
            if !snap.contains_key(t) {
                assert(!u.contains_key(t));
                assert(table_at(u, t) =~= apply_delta(base_t, d0));
            }
        }
    }
    lemma_apply_delta_insert(base_t, d0, k, v);
    assert(apply_tx(snap, dels, pend.insert(t, d0.insert(k, Some(v)))) =~= tbl_insert(
        u,
        t,
        k,
        v,
    ));
}

/// Recording a pending removal publishes as a plain removal on the view.
proof fn lemma_remove_effect_view(
    snap: TablesView,
    dels: Set<Seq<char>>,
    pend: Map<Seq<char>, Map<Seq<char>, Option<Seq<u8>>>>,
    t: Seq<char>,
    k: Seq<char>,
    d0: Map<Seq<char>, Option<Seq<u8>>>,
)
    requires
        !dels.contains(t),
        apply_tx(snap, dels, pend).contains_key(t),
        d0 == (if pend.contains_key(t) {
            pend[t]
        } else {
            Map::<Seq<char>, Option<Seq<u8>>>::empty()
        }),
    ensures
        apply_tx(snap, dels, pend.insert(t, d0.insert(k, None))) == tbl_remove(
            apply_tx(snap, dels, pend),
            t,
            k,
        ),
{
    let u = apply_tx(snap, dels, pend);
    let base_t = if snap.contains_key(t) && !dels.contains(t) {
        snap[t]
    } else {
        Map::<Seq<char>, Seq<u8>>::empty()
    };
    assert(table_at(u, t) == apply_delta(base_t, d0)) by {
        if !pend.contains_key(t) {
            lemma_apply_delta_empty(base_t);
        }
    }
    lemma_apply_delta_remove(base_t, d0, k);
    assert(apply_tx(snap, dels, pend.insert(t, d0.insert(k, None))) =~= tbl_remove(u, t, k));
}

impl TransactionalKVDB for OverlayDB {
    type ReadTransaction = ReadTransaction;

    type WriteTransaction = WriteTransaction;

    fn begin_read(&self) -> (r: Result<ReadTransaction, KvError>)
        ensures
            r is Ok,
    {
        let snap = self.visible_snapshot();
        Ok(ReadTransaction::from_snapshot(snap))
    }

    fn begin_write(&self) -> (r: Result<WriteTransaction, KvError>)
        ensures
            r is Ok,
    {
        let snap = self.visible_snapshot();
        Ok(WriteTransaction::from_snapshot(snap))
    }
}

} // verus!
