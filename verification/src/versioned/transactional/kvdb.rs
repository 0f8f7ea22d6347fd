use vstd::prelude::*;

use crate::error::KvError;
use crate::kvdb::{
    KeyValueDB, TablesView, cleared_all, prefix_filter, table_at, table_cleared, tbl_get,
    tbl_insert, tbl_remove,
};
use crate::listing::{lemma_names_match_contains, names_contain};
use crate::smap::{names_match, pairs_match};
use crate::strutil::{spec_is_prefix, str_has_prefix};
use crate::overlay::reserved_name;
use crate::transactional::{KVReadTransaction, KVWriteTransaction, TransactionalKVDB};
use crate::versioned::{
    VersionedObject, corrupt_at, decode, encode, spec_decode, spec_encode, stored_object,
    table_decodable, vpairs_decode_match,
};

verus! {

/// A read transaction whose values are decoded versioned objects.
pub trait KVReadVersionedTransaction {
    /// The underlying byte tables this handle sees.
    spec fn tv_visible(&self) -> TablesView;

    /// Internal well-formedness of the handle.
    spec fn tv_inv(&self) -> bool;

    /// Whether reads on this handle always reach the bytes.
    spec fn tv_ok(&self) -> bool;

    /// The object stored under the key, decoded.
    fn get(&self, table_name: &str, key: &str) -> (r: Result<Option<VersionedObject>, KvError>)
        requires
            self.tv_inv(),
        ensures
            r is Ok ==> (match stored_object(self.tv_visible(), table_name@, key@) {
                None => r->Ok_0 is None,
                Some(p) => p is Some && r->Ok_0 is Some && (r->Ok_0->0)@ == p->0,
            }),
            self.tv_ok() ==> (r is Ok <==> !corrupt_at(self.tv_visible(), table_name@, key@)),
            self.tv_ok() && r is Err ==> r == Err::<Option<VersionedObject>, KvError>(
                KvError::InvalidData,
            ),
    ;

    /// All pairs of the table, decoded, each key exactly once.
    fn iter(&self, table_name: &str) -> (r: Result<Vec<(String, VersionedObject)>, KvError>)
        requires
            self.tv_inv(),
        ensures
            r is Ok ==> vpairs_decode_match(
                (r->Ok_0).deep_view(),
                table_at(self.tv_visible(), table_name@),
            ),
            self.tv_ok() ==> (r is Ok <==> table_decodable(
                table_at(self.tv_visible(), table_name@),
            )),
    ;

    /// The names of all visible tables.
    fn table_names(&self) -> (r: Result<Vec<String>, KvError>)
        requires
            self.tv_inv(),
        ensures
            r is Ok ==> names_match((r->Ok_0).deep_view(), self.tv_visible().dom()),
            self.tv_ok() ==> r is Ok,
    ;

    /// Whether this handle sees a table of the given name.
    fn contains_table(&self, table_name: &str) -> (r: Result<bool, KvError>)
        requires
            self.tv_inv(),
        ensures
            r is Ok ==> r->Ok_0 == self.tv_visible().contains_key(table_name@),
            self.tv_ok() ==> r is Ok,
    {
        let names = match self.table_names() {
            Ok(v) => v,
            Err(e) => {
                return Err(e);
            },
        };
        let found = names_contain(&names, table_name);
        proof {
            lemma_names_match_contains(names.deep_view(), self.tv_visible().dom(), table_name@);
        }
        Ok(found)
    }

    /// Whether this handle sees the key.
    fn contains_key(&self, table_name: &str, key: &str) -> (r: Result<bool, KvError>)
        requires
            self.tv_inv(),
        ensures
            r is Ok ==> r->Ok_0 == (stored_object(self.tv_visible(), table_name@, key@) is Some),
            self.tv_ok() ==> (r is Ok <==> !corrupt_at(self.tv_visible(), table_name@, key@)),
    {
        match self.get(table_name, key) {
            Ok(v) => Ok(v.is_some()),
            Err(e) => Err(e),
        }
    }

    /// The visible keys of the table, each exactly once.
    fn keys(&self, table_name: &str) -> (r: Result<Vec<String>, KvError>)
        requires
            self.tv_inv(),
        ensures
            r is Ok ==> names_match(
                (r->Ok_0).deep_view(),
                table_at(self.tv_visible(), table_name@).dom(),
            ),
            self.tv_ok() ==> (r is Ok <==> table_decodable(
                table_at(self.tv_visible(), table_name@),
            )),
    {
        let all = match self.iter(table_name) {
            Ok(v) => v,
            Err(e) => {
                return Err(e);
            },
        };
        let ghost s = all.deep_view();
        let ghost tm = table_at(self.tv_visible(), table_name@);
        let n = all.len();
        let mut out: Vec<String> = Vec::new();
        let mut i: usize = 0;
        while i < n
            invariant
                i <= n,
                n == all.len(),
                s == all.deep_view(),
                vpairs_decode_match(s, tm),
                out.len() == i,
                forall|j: int| 0 <= j < i ==> out.deep_view()[j] == s[j].0,
            decreases n - i,
        {
            let ghost prev = out.deep_view();
            out.push(all[i].0.clone());
            proof {
                assert forall|j: int| 0 <= j < i + 1 implies out.deep_view()[j] == s[j].0 by {
                    if j < i {
                        assert(out@[j] == out@.drop_last()[j]);
                        assert(out.deep_view()[j] == prev[j]);
                    } else {
                        assert(out@[j].deep_view() == all@[i as int].0@);
                    }
                }
            }
            i = i + 1;
        }
        proof {
            let od = out.deep_view();
            assert forall|k: Seq<char>| tm.dom().contains(k) implies exists|j: int|
                0 <= j < od.len() && #[trigger] od[j] == k by {
                let l = choose|l: int| 0 <= l < s.len() && (#[trigger] s[l]).0 == k;
                assert(od[l] == k);
            }
        }
        Ok(out)
    }

    /// The decoded objects of the table: the value column of one full
    /// enumeration.
    fn values(&self, table_name: &str) -> (r: Result<Vec<VersionedObject>, KvError>)
        requires
            self.tv_inv(),
        ensures
            r is Ok ==> (exists|s: Seq<(Seq<char>, (Option<Seq<u8>>, u64))>|
                vpairs_decode_match(s, table_at(self.tv_visible(), table_name@))
                    && (r->Ok_0).deep_view() == s.map_values(
                    |p: (Seq<char>, (Option<Seq<u8>>, u64))| p.1,
                )),
            self.tv_ok() ==> (r is Ok <==> table_decodable(
                table_at(self.tv_visible(), table_name@),
            )),
    {
        let all = match self.iter(table_name) {
            Ok(v) => v,
            Err(e) => {
                return Err(e);
            },
        };
        let ghost s = all.deep_view();
        let n = all.len();
        let mut out: Vec<VersionedObject> = Vec::new();
        let mut i: usize = 0;
        while i < n
            invariant
                i <= n,
                n == all.len(),
                s == all.deep_view(),
                out.len() == i,
                forall|j: int| 0 <= j < i ==> out.deep_view()[j] == s[j].1,
            decreases n - i,
        {
            let ghost prev = out.deep_view();
            let o = all[i].1.duplicate();
            out.push(o);
            proof {
                assert forall|j: int| 0 <= j < i + 1 implies out.deep_view()[j] == s[j].1 by {
                    if j < i {
                        assert(out@[j] == out@.drop_last()[j]);
                        assert(out.deep_view()[j] == prev[j]);
                    } else {
                        assert(out@[j].deep_view() == o@);
                    }
                }
            }
            i = i + 1;
        }
        proof {
            assert(out.deep_view() =~= s.map_values(
                |p: (Seq<char>, (Option<Seq<u8>>, u64))| p.1,
            ));
        }
        Ok(out)
    }

    /// The decoded pairs of the table whose keys start with `prefix`.
    fn iter_from_prefix(&self, table_name: &str, prefix: &str) -> (r: Result<
        Vec<(String, VersionedObject)>,
        KvError,
    >)
        requires
            self.tv_inv(),
        ensures
            r is Ok ==> vpairs_decode_match(
                (r->Ok_0).deep_view(),
                prefix_filter(table_at(self.tv_visible(), table_name@), prefix@),
            ),
            self.tv_ok() ==> (r is Ok <==> table_decodable(
                table_at(self.tv_visible(), table_name@),
            )),
    {
        let all = match self.iter(table_name) {
            Ok(v) => v,
            Err(e) => {
                return Err(e);
            },
        };
        let ghost s = all.deep_view();
        let ghost tm = table_at(self.tv_visible(), table_name@);
        let ghost pred = (|pr: (Seq<char>, (Option<Seq<u8>>, u64))| spec_is_prefix(prefix@, pr.0));
        let n = all.len();
        let mut out: Vec<(String, VersionedObject)> = Vec::new();
        let mut i: usize = 0;
        proof {
            assert(s.take(0) =~= Seq::<(Seq<char>, (Option<Seq<u8>>, u64))>::empty());
            assert(out.deep_view() =~= s.take(0).filter(pred));
        }
        while i < n
            invariant
                i <= n,
                n == all.len(),
                s == all.deep_view(),
                vpairs_decode_match(s, tm),
                pred == (|pr: (Seq<char>, (Option<Seq<u8>>, u64))| spec_is_prefix(prefix@, pr.0)),
                out.deep_view() == s.take(i as int).filter(pred),
            decreases n - i,
        {
            let ghost prev = out.deep_view();
            proof {
                reveal(Seq::filter);
                assert(s.take(i + 1 as int).drop_last() =~= s.take(i as int));
                assert(s.take(i + 1 as int).last() == s[i as int]);
            }
            if str_has_prefix(all[i].0.as_str(), prefix) {
                let pair = (all[i].0.clone(), all[i].1.duplicate());
                proof {
                    assert(pair.deep_view() == s[i as int]);
                }
                out.push(pair);
                proof {
                    assert(out.deep_view() =~= prev.push(s[i as int]));
                    assert(pred(s[i as int]));
                }
            } else {
                proof {
                    assert(!pred(s[i as int]));
                }
            }
            i = i + 1;
        }
        proof {
            assert(s.take(n as int) =~= s);
            let od = out.deep_view();
            let fm = prefix_filter(tm, prefix@);
            crate::smap::lemma_filter_elements(s, pred);
            assert forall|a: int| 0 <= a < od.len() implies fm.contains_key((#[trigger] od[a]).0)
                && spec_decode(fm[od[a].0]) == Some(od[a].1) by {
                assert(s.contains(od[a]) && pred(od[a]));
                let l = choose|l: int| 0 <= l < s.len() && s[l] == od[a];
                assert(tm.contains_key(s[l].0));
            }
            assert forall|k: Seq<char>| fm.contains_key(k) implies exists|a: int|
                0 <= a < od.len() && (#[trigger] od[a]).0 == k by {
                assert(tm.contains_key(k));
                let l = choose|l: int| 0 <= l < s.len() && (#[trigger] s[l]).0 == k;
                assert(pred(s[l]));
                assert(od.contains(s[l]));
                let a = choose|a: int| 0 <= a < od.len() && od[a] == s[l];
                assert(od[a].0 == k);
            }
        }
        Ok(out)
    }
}

/// A write transaction whose values are decoded versioned objects: an
/// overlay of versioned writes, committed or discarded as a whole.
pub trait KVWriteVersionedTransaction: KVReadVersionedTransaction {
    /// The store type this transaction commits into.
    type VDB: KeyValueDB;

    /// The byte tables that committing onto base state `b` produces.
    spec fn tv_apply(&self, b: TablesView) -> TablesView;

    /// The byte tables this transaction began on.
    spec fn tv_began_on(&self) -> TablesView;

    /// The visible state with a transaction-local deletion of `t` undone:
    /// what a write to `t` works against.
    spec fn tv_undelete(&self, t: Seq<char>) -> TablesView;

    /// Whether the underlying handle records mutations without failing,
    /// except for the refusal of the reserved table names.
    spec fn tv_wt_ok(&self) -> bool;

    /// Record a versioned write with a caller-supplied version; `update` is
    /// the entry point that guarantees monotonic versions. The object the
    /// key held before (against the resurrected view) is reported; if its
    /// bytes are malformed, the error is reported though the write is
    /// already recorded.
    fn insert(&mut self, table_name: &str, key: &str, value: &[u8], version: u64) -> (r: Result<
        Option<VersionedObject>,
        KvError,
    >)
        requires
            old(self).tv_inv(),
            value@.len() <= u32::MAX,
        ensures
            final(self).tv_inv(),
            final(self).tv_ok() == old(self).tv_ok(),
            final(self).tv_wt_ok() == old(self).tv_wt_ok(),
            final(self).tv_began_on() == old(self).tv_began_on(),
            old(self).tv_visible().contains_key(table_name@) ==> old(self).tv_undelete(
                table_name@,
            ) == old(self).tv_visible(),
            r is Ok ==> final(self).tv_visible() == tbl_insert(
                old(self).tv_undelete(table_name@),
                table_name@,
                key@,
                spec_encode(Some(value@), version),
            ) && (match stored_object(old(self).tv_undelete(table_name@), table_name@, key@) {
                None => r->Ok_0 is None,
                Some(p) => p is Some && r->Ok_0 is Some && (r->Ok_0->0)@ == p->0,
            }),
            r is Err ==> final(self).tv_visible() == old(self).tv_visible()
                || final(self).tv_visible() == tbl_insert(
                old(self).tv_undelete(table_name@),
                table_name@,
                key@,
                spec_encode(Some(value@), version),
            ),
            old(self).tv_wt_ok() && reserved_name(table_name@) ==> r == Err::<
                Option<VersionedObject>,
                KvError,
            >(KvError::InvalidInput),
            old(self).tv_wt_ok() && !reserved_name(table_name@) ==> (match stored_object(
                old(self).tv_undelete(table_name@),
                table_name@,
                key@,
            ) {
                None => r is Ok,
                Some(p) => (p is None ==> r == Err::<Option<VersionedObject>, KvError>(
                    KvError::InvalidData,
                )) && (p is Some ==> r is Ok),
            }),
    ;

    /// Record a versioned removal under the prune or tombstone policy. A
    /// missing key is reported as absence and records nothing.
    fn remove(&mut self, table_name: &str, key: &str, prune: bool) -> (r: Result<
        Option<VersionedObject>,
        KvError,
    >)
        requires
            old(self).tv_inv(),
        ensures
            final(self).tv_inv(),
            final(self).tv_ok() == old(self).tv_ok(),
            final(self).tv_wt_ok() == old(self).tv_wt_ok(),
            final(self).tv_began_on() == old(self).tv_began_on(),
            r is Err ==> final(self).tv_visible() == old(self).tv_visible(),
            r is Ok ==> (match stored_object(old(self).tv_visible(), table_name@, key@) {
                None => r->Ok_0 is None && final(self).tv_visible() == old(self).tv_visible(),
                Some(p) => {
                    &&& p is Some
                    &&& r->Ok_0 is Some
                    &&& (r->Ok_0->0)@ == p->0
                    &&& (prune ==> final(self).tv_visible() == tbl_remove(
                        old(self).tv_visible(),
                        table_name@,
                        key@,
                    ))
                    &&& (!prune ==> (p->0).1 < u64::MAX && final(self).tv_visible() == tbl_insert(
                        old(self).tv_visible(),
                        table_name@,
                        key@,
                        spec_encode(None, ((p->0).1 + 1) as u64),
                    ))
                },
            }),
            old(self).tv_ok() && old(self).tv_wt_ok() ==> (match stored_object(
                old(self).tv_visible(),
                table_name@,
                key@,
            ) {
                None => r is Ok && r->Ok_0 is None,
                Some(p) =>
                    if p is None {
                        r == Err::<Option<VersionedObject>, KvError>(KvError::InvalidData)
                    } else if prune {
                        if reserved_name(table_name@) {
                            r == Err::<Option<VersionedObject>, KvError>(KvError::InvalidInput)
                        } else {
                            r is Ok
                        }
                    } else if (p->0).1 == u64::MAX {
                        r == Err::<Option<VersionedObject>, KvError>(KvError::InvalidData)
                    } else if reserved_name(table_name@) {
                        r == Err::<Option<VersionedObject>, KvError>(KvError::InvalidInput)
                    } else {
                        r is Ok
                    },
            }),
    ;

    /// Apply the whole overlay to the store as one unit.
    fn commit(self, db: &mut Self::VDB) -> (r: Result<(), KvError>)
        requires
            self.tv_inv(),
            old(db).inv(),
        ensures
            final(db).inv(),
            final(db).always_ok() == old(db).always_ok(),
            self.tv_wt_ok() ==> r is Ok,
            r is Ok ==> final(db).model() == self.tv_apply(old(db).model()),
            r is Err ==> final(db).model() == old(db).model(),
    ;

    /// Discard the overlay; no store is touched.
    fn abort(self) -> (r: Result<(), KvError>)
        ensures
            r is Ok,
    ;

    /// Mark the table deleted in this transaction.
    fn delete_table(&mut self, table_name: &str) -> (r: Result<(), KvError>)
        requires
            old(self).tv_inv(),
        ensures
            final(self).tv_inv(),
            final(self).tv_ok() == old(self).tv_ok(),
            final(self).tv_wt_ok() == old(self).tv_wt_ok(),
            final(self).tv_began_on() == old(self).tv_began_on(),
            old(self).tv_ok() && old(self).tv_wt_ok() && !reserved_name(table_name@) ==> r is Ok,
            r is Ok ==> table_cleared(
                old(self).tv_visible(),
                final(self).tv_visible(),
                table_name@,
            ),
    ;

    /// Mark every visible table deleted in this transaction.
    fn clear(&mut self) -> (r: Result<(), KvError>)
        requires
            old(self).tv_inv(),
        ensures
            final(self).tv_inv(),
            final(self).tv_ok() == old(self).tv_ok(),
            final(self).tv_wt_ok() == old(self).tv_wt_ok(),
            final(self).tv_began_on() == old(self).tv_began_on(),
            old(self).tv_ok() && old(self).tv_wt_ok() && (forall|t: Seq<char>|
                #[trigger] old(self).tv_visible().contains_key(t) ==> !reserved_name(t)) ==> r
                is Ok,
            r is Ok ==> cleared_all(old(self).tv_visible(), final(self).tv_visible()),
    ;

    /// Set the key to `value` (or a tombstone for `None`) at the next
    /// version: the version the transaction currently sees under the key
    /// plus one, or one for an absent key. A counter at its maximum is an
    /// error, never a wraparound.
    fn update(&mut self, table_name: &str, key: &str, value: Option<&[u8]>) -> (r: Result<
        Option<VersionedObject>,
        KvError,
    >)
        requires
            old(self).tv_inv(),
            value is Some ==> (value->0)@.len() <= u32::MAX,
        ensures
            final(self).tv_inv(),
            final(self).tv_ok() == old(self).tv_ok(),
            final(self).tv_wt_ok() == old(self).tv_wt_ok(),
            final(self).tv_began_on() == old(self).tv_began_on(),
            r is Err ==> final(self).tv_visible() == old(self).tv_visible() || (value is Some
                && exists|ver: u64|
                final(self).tv_visible() == tbl_insert(
                    old(self).tv_undelete(table_name@),
                    table_name@,
                    key@,
                    #[trigger] spec_encode(Some((value->0)@), ver),
                )),
            old(self).tv_ok() && old(self).tv_wt_ok() ==> (match stored_object(
                old(self).tv_visible(),
                table_name@,
                key@,
            ) {
                Some(p) =>
                    if p is None {
                        r == Err::<Option<VersionedObject>, KvError>(KvError::InvalidData)
                    } else if (p->0).1 == u64::MAX {
                        r == Err::<Option<VersionedObject>, KvError>(KvError::InvalidData)
                    } else if reserved_name(table_name@) {
                        r == Err::<Option<VersionedObject>, KvError>(KvError::InvalidInput)
                    } else {
                        r is Ok
                    },
                None =>
                    if value is None {
                        r is Ok && r->Ok_0 is None
                    } else if reserved_name(table_name@) {
                        r == Err::<Option<VersionedObject>, KvError>(KvError::InvalidInput)
                    } else {
                        match stored_object(old(self).tv_undelete(table_name@), table_name@, key@) {
                            Some(q) => (q is None ==> r == Err::<
                                Option<VersionedObject>,
                                KvError,
                            >(KvError::InvalidData)) && (q is Some ==> r is Ok),
                            None => r is Ok,
                        }
                    },
            }),
            r is Ok && value is Some ==> (match stored_object(
                old(self).tv_visible(),
                table_name@,
                key@,
            ) {
                None => final(self).tv_visible() == tbl_insert(
                    old(self).tv_undelete(table_name@),
                    table_name@,
                    key@,
                    spec_encode(Some((value->0)@), 1),
                ),
                Some(p) => p is Some && (p->0).1 < u64::MAX && final(self).tv_visible()
                    == tbl_insert(
                    old(self).tv_undelete(table_name@),
                    table_name@,
                    key@,
                    spec_encode(Some((value->0)@), ((p->0).1 + 1) as u64),
                ),
            }),
            r is Ok && value is None ==> (match stored_object(
                old(self).tv_visible(),
                table_name@,
                key@,
            ) {
                None => r->Ok_0 is None && final(self).tv_visible() == old(self).tv_visible(),
                Some(p) => p is Some && (p->0).1 < u64::MAX && final(self).tv_visible()
                    == tbl_insert(
                    old(self).tv_visible(),
                    table_name@,
                    key@,
                    spec_encode(None, ((p->0).1 + 1) as u64),
                ),
            }),
    {
        let cur = match self.get(table_name, key) {
            Ok(c) => c,
            Err(e) => {
                return Err(e);
            },
        };
        match value {
            Some(v) => {
                let new_version: u64 = match &cur {
                    Some(o) => {
                        if o.version == u64::MAX {
                            return Err(KvError::InvalidData);
                        }
                        o.version + 1
                    },
                    None => 1,
                };
                self.insert(table_name, key, v, new_version)
            },
            None => self.remove(table_name, key, false),
        }
    }
}

/// A store that opens transactions over versioned objects.
pub trait VersionedTransactionalKVDB: KeyValueDB {
    type ReadTransaction: KVReadVersionedTransaction;

    type WriteTransaction: KVWriteVersionedTransaction<VDB = Self>;

    /// A read handle over a snapshot of the current state.
    fn begin_read(&self) -> (r: Result<Self::ReadTransaction, KvError>)
        requires
            self.inv(),
        ensures
            r is Ok ==> ((r->Ok_0).tv_visible() == self.model() && (r->Ok_0).tv_inv()),
            self.always_ok() ==> r is Ok,
    ;

    /// A write handle with an empty overlay over the current state.
    fn begin_write(&self) -> (r: Result<Self::WriteTransaction, KvError>)
        requires
            self.inv(),
        ensures
            r is Ok ==> ((r->Ok_0).tv_visible() == self.model() && (r->Ok_0).tv_inv() && (
            r->Ok_0).tv_began_on() == self.model() && forall|b: TablesView|
                #[trigger] (r->Ok_0).tv_apply(b) == b),
            self.always_ok() ==> r is Ok,
    ;
}

impl<T: KVReadTransaction> KVReadVersionedTransaction for T {
    open spec fn tv_visible(&self) -> TablesView {
        self.visible()
    }

    open spec fn tv_inv(&self) -> bool {
        self.rt_inv()
    }

    open spec fn tv_ok(&self) -> bool {
        self.rt_ok()
    }

    fn get(&self, table_name: &str, key: &str) -> (r: Result<Option<VersionedObject>, KvError>) {
        let bytes = match KVReadTransaction::get(self, table_name, key) {
            Ok(b) => b,
            Err(e) => {
                return Err(e);
            },
        };
        match bytes {
            Some(b) => match decode(b.as_slice()) {
                Ok(o) => Ok(Some(o)),
                Err(e) => Err(e),
            },
            None => Ok(None),
        }
    }

    fn iter(&self, table_name: &str) -> (r: Result<Vec<(String, VersionedObject)>, KvError>) {
        let ghost tm = table_at(self.visible(), table_name@);
        let all = match KVReadTransaction::iter(self, table_name) {
            Ok(v) => v,
            Err(e) => {
                return Err(e);
            },
        };
        decode_tx_pairs(all, Ghost(tm))
    }

    fn table_names(&self) -> (r: Result<Vec<String>, KvError>) {
        KVReadTransaction::table_names(self)
    }
}

/// Decode every value of a transaction enumeration; one malformed value
/// makes the listing malformed data.
fn decode_tx_pairs(all: Vec<(String, Vec<u8>)>, Ghost(tm): Ghost<Map<Seq<char>, Seq<u8>>>) -> (r:
    Result<Vec<(String, VersionedObject)>, KvError>)
    requires
        pairs_match(all.deep_view(), tm),
    ensures
        r is Ok ==> vpairs_decode_match((r->Ok_0).deep_view(), tm),
        r is Err ==> r == Err::<Vec<(String, VersionedObject)>, KvError>(KvError::InvalidData)
            && !table_decodable(tm),
        table_decodable(tm) ==> r is Ok,
{
    let ghost s = all.deep_view();
    let n = all.len();
    let mut out: Vec<(String, VersionedObject)> = Vec::new();
    let mut i: usize = 0;
    while i < n
        invariant
            i <= n,
            n == all.len(),
            s == all.deep_view(),
            pairs_match(s, tm),
            out.len() == i,
            forall|j: int|
                0 <= j < i ==> (#[trigger] out.deep_view()[j]).0 == s[j].0 && spec_decode(s[j].1)
                    == Some(out.deep_view()[j].1),
        decreases n - i,
    {
        let ghost prev = out.deep_view();
        let obj = match decode(all[i].1.as_slice()) {
            Ok(o) => o,
            Err(_) => {
                proof {
                    assert(tm.contains_key(s[i as int].0));
                    assert(tm[s[i as int].0] == s[i as int].1);
                }
                return Err(KvError::InvalidData);
            },
        };
        proof {
            assert(all@[i as int].1@ == s[i as int].1);
        }
        out.push((all[i].0.clone(), obj));
        proof {
            assert forall|j: int| 0 <= j < i + 1 implies (#[trigger] out.deep_view()[j]).0
                == s[j].0 && spec_decode(s[j].1) == Some(out.deep_view()[j].1) by {
                if j < i {
                    assert(out@[j] == out@.drop_last()[j]);
                    assert(out.deep_view()[j] == prev[j]);
                } else {
                    assert(out@[j].deep_view() == (all@[i as int].0@, obj@));
                }
            }
        }
        i = i + 1;
    }
    proof {
        let od = out.deep_view();
        assert forall|a: int| 0 <= a < od.len() implies tm.contains_key((#[trigger] od[a]).0)
            && spec_decode(tm[od[a].0]) == Some(od[a].1) by {
            assert(tm.contains_key(s[a].0) && tm[s[a].0] == s[a].1);
        }
        assert forall|k: Seq<char>| tm.contains_key(k) implies exists|a: int|
            0 <= a < od.len() && (#[trigger] od[a]).0 == k by {
            let l = choose|l: int| 0 <= l < s.len() && (#[trigger] s[l]).0 == k;
            assert(od[l].0 == k);
        }
        assert forall|a: int, b: int| 0 <= a < b < od.len() implies od[a].0 != od[b].0 by {
            assert(od[a].0 == s[a].0 && od[b].0 == s[b].0);
        }
    }
    Ok(out)
}

impl<T: KVWriteTransaction> KVWriteVersionedTransaction for T {
    type VDB = T::DB;

    open spec fn tv_apply(&self, b: TablesView) -> TablesView {
        self.apply(b)
    }

    open spec fn tv_began_on(&self) -> TablesView {
        self.began_on()
    }

    open spec fn tv_undelete(&self, t: Seq<char>) -> TablesView {
        self.undelete(t)
    }

    open spec fn tv_wt_ok(&self) -> bool {
        self.wt_ok()
    }

    fn insert(&mut self, table_name: &str, key: &str, value: &[u8], version: u64) -> (r: Result<
        Option<VersionedObject>,
        KvError,
    >) {
        let v = vstd::slice::slice_to_vec(value);
        proof {
            assert(v.deep_view() =~= value@);
        }
        let obj = VersionedObject { value: Some(v), version };
        let enc = encode(&obj);
        proof {
            assert(enc@ == spec_encode(Some(value@), version));
        }
        let old_bytes = match KVWriteTransaction::insert(self, table_name, key, enc.as_slice()) {
            Ok(b) => b,
            Err(e) => {
                return Err(e);
            },
        };
        proof {
            assert(self.tv_visible() == tbl_insert(
                old(self).tv_undelete(table_name@),
                table_name@,
                key@,
                spec_encode(Some(value@), version),
            ));
            assert(old_bytes.deep_view() == tbl_get(
                old(self).tv_undelete(table_name@),
                table_name@,
                key@,
            ));
        }
        match old_bytes {
            Some(b) => {
                proof {
                    assert(b.deep_view() =~= b@);
                }
                match decode(b.as_slice()) {
                    Ok(o) => Ok(Some(o)),
                    Err(e) => Err(e),
                }
            },
            None => Ok(None),
        }
    }

    fn remove(&mut self, table_name: &str, key: &str, prune: bool) -> (r: Result<
        Option<VersionedObject>,
        KvError,
    >) {
        let old_bytes = match KVReadTransaction::get(self, table_name, key) {
            Ok(b) => b,
            Err(e) => {
                return Err(e);
            },
        };
        let b = match old_bytes {
            Some(b) => b,
            None => {
                return Ok(None);
            },
        };
        let obj = match decode(b.as_slice()) {
            Ok(o) => o,
            Err(e) => {
                return Err(e);
            },
        };
        if prune {
            match KVWriteTransaction::remove(self, table_name, key) {
                Ok(_) => Ok(Some(obj)),
                Err(e) => Err(e),
            }
        } else {
            if obj.version == u64::MAX {
                return Err(KvError::InvalidData);
            }
            let tomb = VersionedObject { value: None, version: obj.version + 1 };
            let enc = encode(&tomb);
            let ghost v0 = self.visible();
            match KVWriteTransaction::insert(self, table_name, key, enc.as_slice()) {
                Ok(_) => {
                    proof {
                        assert(v0.contains_key(table_name@));
                        assert(old(self).undelete(table_name@) == v0);
                        assert(self.visible() =~= tbl_insert(
                            v0,
                            table_name@,
                            key@,
                            spec_encode(None, (obj@.1 + 1) as u64),
                        ));
                    }
                    Ok(Some(obj))
                },
                Err(e) => Err(e),
            }
        }
    }

    fn commit(self, db: &mut T::DB) -> (r: Result<(), KvError>) {
        KVWriteTransaction::commit(self, db)
    }

    fn abort(self) -> (r: Result<(), KvError>) {
        KVWriteTransaction::abort(self)
    }

    fn delete_table(&mut self, table_name: &str) -> (r: Result<(), KvError>) {
        KVWriteTransaction::delete_table(self, table_name)
    }

    fn clear(&mut self) -> (r: Result<(), KvError>) {
        let r = KVWriteTransaction::clear(self);
        proof {
            if old(self).rt_ok() && old(self).wt_ok() && (forall|t: Seq<char>|
                #[trigger] old(self).tv_visible().contains_key(t) ==> !reserved_name(t)) {
                assert forall|t: Seq<char>|
                    #[trigger] old(self).visible().contains_key(t) implies !reserved_name(t) by {
                    assert(old(self).tv_visible().contains_key(t));
                }
            }
        }
        r
    }
}

impl<T: TransactionalKVDB> VersionedTransactionalKVDB for T {
    type ReadTransaction = T::ReadTransaction;

    type WriteTransaction = T::WriteTransaction;

    fn begin_read(&self) -> (r: Result<T::ReadTransaction, KvError>) {
        TransactionalKVDB::begin_read(self)
    }

    fn begin_write(&self) -> (r: Result<T::WriteTransaction, KvError>) {
        TransactionalKVDB::begin_write(self)
    }
}

} // verus!
