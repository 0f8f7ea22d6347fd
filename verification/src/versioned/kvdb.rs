use vstd::prelude::*;

use crate::error::KvError;
use crate::kvdb::{
    KeyValueDB, TablesView, cleared_all, prefix_filter, table_at, table_cleared, tbl_get,
    tbl_insert, tbl_remove,
};
use crate::listing::{lemma_names_match_contains, names_contain};
use crate::smap::{distinct_keys, names_match, pairs_match};
use crate::strutil::{spec_is_prefix, str_has_prefix};
use crate::versioned::{VersionedObject, decode, encode, spec_decode, spec_encode};

verus! {

/// What is stored under a key, seen through the codec: `None` when the key
/// is absent, `Some(None)` when bytes are there but malformed, and
/// `Some(Some(object))` when they decode.
pub open spec fn stored_object(m: TablesView, t: Seq<char>, k: Seq<char>) -> Option<
    Option<(Option<Seq<u8>>, u64)>,
> {
    match tbl_get(m, t, k) {
        None => None,
        Some(b) => Some(spec_decode(b)),
    }
}

/// Whether the bytes stored under a key are malformed.
pub open spec fn corrupt_at(m: TablesView, t: Seq<char>, k: Seq<char>) -> bool {
    stored_object(m, t, k) == Some(None::<(Option<Seq<u8>>, u64)>)
}

/// A decoded listing of a byte table: each key exactly once, each value the
/// decoding of the stored bytes.
pub open spec fn vpairs_decode_match(
    o: Seq<(Seq<char>, (Option<Seq<u8>>, u64))>,
    tm: Map<Seq<char>, Seq<u8>>,
) -> bool {
    &&& forall|i: int|
        0 <= i < o.len() ==> tm.contains_key((#[trigger] o[i]).0) && spec_decode(tm[o[i].0])
            == Some(o[i].1)
    &&& forall|k: Seq<char>|
        tm.contains_key(k) ==> exists|i: int| 0 <= i < o.len() && (#[trigger] o[i]).0 == k
    &&& distinct_keys(o)
}

/// Two stores equal after removing one table agree on every other table.
proof fn lemma_table_frame(m1: TablesView, mpre: TablesView, t0: Seq<char>, x: Seq<char>)
    requires
        m1.remove(t0) == mpre.remove(t0),
        x != t0,
    ensures
        m1.contains_key(x) == mpre.contains_key(x),
        table_at(m1, x) == table_at(mpre, x),
{
    assert(m1.remove(t0).contains_key(x) == m1.contains_key(x));
    assert(mpre.remove(t0).contains_key(x) == mpre.contains_key(x));
    assert(m1.remove(t0).contains_key(x) == mpre.remove(t0).contains_key(x));
    if m1.contains_key(x) {
        assert(m1.remove(t0)[x] == m1[x]);
        assert(mpre.remove(t0)[x] == mpre[x]);
        assert(m1.remove(t0)[x] == mpre.remove(t0)[x]);
    }
}

/// Whether every entry of a table can take a tombstone: the stored bytes
/// decode and the version counter is below its maximum.
pub open spec fn sweepable(tm: Map<Seq<char>, Seq<u8>>) -> bool {
    forall|k: Seq<char>|
        #[trigger] tm.contains_key(k) ==> (spec_decode(tm[k]) matches Some(p) && p.1 < u64::MAX)
}

/// A table after a tombstone sweep: the rest of the store and the table's
/// key set are untouched, and every entry now reads as a tombstone.
pub open spec fn soft_swept_table(m0: TablesView, m1: TablesView, t: Seq<char>) -> bool {
    &&& m1.remove(t) == m0.remove(t)
    &&& m1.contains_key(t) == m0.contains_key(t)
    &&& table_at(m1, t).dom() == table_at(m0, t).dom()
    &&& forall|k: Seq<char>|
        #[trigger] table_at(m1, t).contains_key(k) ==> (spec_decode(table_at(m1, t)[k]) matches
        Some(p) && p.0 is None)
}

/// A store after a full tombstone sweep: every table keeps its keys, and
/// every entry reads as a tombstone.
pub open spec fn soft_swept_all(m0: TablesView, m1: TablesView) -> bool {
    &&& m1.dom() == m0.dom()
    &&& forall|t: Seq<char>|
        #[trigger] m1.contains_key(t) ==> table_at(m1, t).dom() == table_at(m0, t).dom()
    &&& forall|t: Seq<char>, k: Seq<char>|
        m1.contains_key(t) && #[trigger] table_at(m1, t).contains_key(k) ==> (spec_decode(
            table_at(m1, t)[k],
        ) matches Some(p) && p.0 is None)
}

/// Whether every value of a byte table decodes.
pub open spec fn table_decodable(tm: Map<Seq<char>, Seq<u8>>) -> bool {
    forall|k: Seq<char>| #[trigger] tm.contains_key(k) ==> spec_decode(tm[k]) is Some
}

/// Decode every value of an enumeration; the first malformed value makes the
/// whole listing malformed data.
fn decode_pairs(all: Vec<(String, Vec<u8>)>, Ghost(tm): Ghost<Map<Seq<char>, Seq<u8>>>) -> (r:
    Result<Vec<(String, VersionedObject)>, KvError>)
    requires
        pairs_match(all.deep_view(), tm),
    ensures
        r is Ok ==> vpairs_decode_match((r->Ok_0).deep_view(), tm),
        r is Err ==> r == Err::<Vec<(String, VersionedObject)>, KvError>(KvError::InvalidData)
            && !table_decodable(tm),
        table_decodable(tm) ==> r is Ok,
{
    let ghost s = all.deep_view();
    let n = all.len();
    let mut out: Vec<(String, VersionedObject)> = Vec::new();
    let mut i: usize = 0;
    while i < n
        invariant
            i <= n,
            n == all.len(),
            s == all.deep_view(),
            pairs_match(s, tm),
            out.len() == i,
            forall|j: int|
                0 <= j < i ==> (#[trigger] out.deep_view()[j]).0 == s[j].0 && spec_decode(s[j].1)
                    == Some(out.deep_view()[j].1),
        decreases n - i,
    {
        let ghost prev = out.deep_view();
        let obj = match decode(all[i].1.as_slice()) {
            Ok(o) => o,
            Err(_) => {
                proof {
                    assert(tm.contains_key(s[i as int].0));
                    assert(tm[s[i as int].0] == s[i as int].1);
                }
                return Err(KvError::InvalidData);
            },
        };
        proof {
            assert(all@[i as int].1@ == s[i as int].1);
        }
        out.push((all[i].0.clone(), obj));
        proof {
            assert forall|j: int| 0 <= j < i + 1 implies (#[trigger] out.deep_view()[j]).0
                == s[j].0 && spec_decode(s[j].1) == Some(out.deep_view()[j].1) by {
                if j < i {
                    assert(out@[j] == out@.drop_last()[j]);
                    assert(out.deep_view()[j] == prev[j]);
                } else {
                    assert(out@[j].deep_view() == (all@[i as int].0@, obj@));
                }
            }
        }
        i = i + 1;
    }
    proof {
        let od = out.deep_view();
        assert forall|a: int| 0 <= a < od.len() implies tm.contains_key((#[trigger] od[a]).0)
            && spec_decode(tm[od[a].0]) == Some(od[a].1) by {
            assert(tm.contains_key(s[a].0) && tm[s[a].0] == s[a].1);
        }
        assert forall|k: Seq<char>| tm.contains_key(k) implies exists|a: int|
            0 <= a < od.len() && (#[trigger] od[a]).0 == k by {
            let l = choose|l: int| 0 <= l < s.len() && (#[trigger] s[l]).0 == k;
            assert(od[l].0 == k);
        }
        assert forall|a: int, b: int| 0 <= a < b < od.len() implies od[a].0 != od[b].0 by {
            assert(od[a].0 == s[a].0 && od[b].0 == s[b].0);
        }
    }
    Ok(out)
}

/// A store of versioned objects over any base capability: values are stored
/// through the codec, and `update` is the entry point that guarantees the
/// per-key version counter grows by one on every call.
///
/// `vstore()` is the underlying byte-table state; reads and writes are
/// specified through the codec over it.
pub trait VersionedKeyValueDB {
    /// The underlying byte tables.
    spec fn vstore(&self) -> TablesView;

    /// Internal well-formedness.
    spec fn v_inv(&self) -> bool;

    /// Whether the underlying store never fails.
    spec fn v_ok(&self) -> bool;

    /// Store `value` under the key with a caller-supplied version, and
    /// report the previously stored object. Callers of this method take
    /// responsibility for version monotonicity themselves; `update` is the
    /// entry point that guarantees it.
    fn insert(&mut self, table_name: &str, key: &str, value: &[u8], version: u64) -> (r: Result<
        Option<VersionedObject>,
        KvError,
    >)
        requires
            old(self).v_inv(),
            value@.len() <= u32::MAX,
        ensures
            final(self).v_inv(),
            final(self).v_ok() == old(self).v_ok(),
            r is Ok ==> final(self).vstore() == tbl_insert(
                old(self).vstore(),
                table_name@,
                key@,
                spec_encode(Some(value@), version),
            ) && (match stored_object(old(self).vstore(), table_name@, key@) {
                None => r->Ok_0 is None,
                Some(p) => p is Some && r->Ok_0 is Some && (r->Ok_0->0)@ == p->0,
            }),
            old(self).v_ok() && r is Err ==> final(self).vstore() == old(self).vstore(),
            old(self).v_ok() ==> (r is Ok <==> !corrupt_at(old(self).vstore(), table_name@, key@)),
            old(self).v_ok() && r is Err ==> r == Err::<Option<VersionedObject>, KvError>(
                KvError::InvalidData,
            ),
    ;

    /// The object stored under the key, decoded.
    fn get(&self, table_name: &str, key: &str) -> (r: Result<Option<VersionedObject>, KvError>)
        requires
            self.v_inv(),
        ensures
            r is Ok ==> (match stored_object(self.vstore(), table_name@, key@) {
                None => r->Ok_0 is None,
                Some(p) => p is Some && r->Ok_0 is Some && (r->Ok_0->0)@ == p->0,
            }),
            self.v_ok() ==> (r is Ok <==> !corrupt_at(self.vstore(), table_name@, key@)),
            self.v_ok() && r is Err ==> r == Err::<Option<VersionedObject>, KvError>(
                KvError::InvalidData,
            ),
    ;

    /// Remove the key under one of two policies: with `prune` the entry is
    /// erased for good; without it the entry is rewritten as a tombstone
    /// carrying the next version, still enumerable. Either way the object
    /// stored before is reported; a missing key is not an error, and a
    /// version counter at its maximum refuses the tombstone rather than
    /// wrapping around.
    fn remove(&mut self, table_name: &str, key: &str, prune: bool) -> (r: Result<
        Option<VersionedObject>,
        KvError,
    >)
        requires
            old(self).v_inv(),
        ensures
            final(self).v_inv(),
            final(self).v_ok() == old(self).v_ok(),
            old(self).v_ok() && r is Err ==> final(self).vstore() == old(self).vstore(),
            r is Ok ==> (match stored_object(old(self).vstore(), table_name@, key@) {
                None => r->Ok_0 is None && final(self).vstore() == old(self).vstore(),
                Some(p) => {
                    &&& p is Some
                    &&& r->Ok_0 is Some
                    &&& (r->Ok_0->0)@ == p->0
                    &&& (prune ==> final(self).vstore() == tbl_remove(
                        old(self).vstore(),
                        table_name@,
                        key@,
                    ))
                    &&& (!prune ==> (p->0).1 < u64::MAX && final(self).vstore() == tbl_insert(
                        old(self).vstore(),
                        table_name@,
                        key@,
                        spec_encode(None, ((p->0).1 + 1) as u64),
                    ))
                },
            }),
            old(self).v_ok() ==> (r is Ok <==> (match stored_object(
                old(self).vstore(),
                table_name@,
                key@,
            ) {
                None => true,
                Some(p) => p is Some && (!prune ==> (p->0).1 < u64::MAX),
            })),
            old(self).v_ok() && r is Err ==> r == Err::<Option<VersionedObject>, KvError>(
                KvError::InvalidData,
            ),
    ;

    /// All pairs of the table, decoded, each key exactly once; one malformed
    /// value makes the listing fail.
    fn iter(&self, table_name: &str) -> (r: Result<Vec<(String, VersionedObject)>, KvError>)
        requires
            self.v_inv(),
        ensures
            r is Ok ==> vpairs_decode_match(
                (r->Ok_0).deep_view(),
                table_at(self.vstore(), table_name@),
            ),
            self.v_ok() ==> (r is Ok <==> table_decodable(table_at(self.vstore(), table_name@))),
            self.v_ok() && r is Err ==> r == Err::<Vec<(String, VersionedObject)>, KvError>(
                KvError::InvalidData,
            ),
    ;

    /// The names of all live tables.
    fn table_names(&self) -> (r: Result<Vec<String>, KvError>)
        requires
            self.v_inv(),
        ensures
            r is Ok ==> names_match((r->Ok_0).deep_view(), self.vstore().dom()),
            self.v_ok() ==> r is Ok,
    ;

    /// Delete the table under one of two policies: with `prune` its storage
    /// is dropped from the underlying store; without it every entry is
    /// rewritten as a tombstone at its next version, so the deletion is
    /// itself versioned and still enumerable.
    fn delete_table(&mut self, table_name: &str, prune: bool) -> (r: Result<(), KvError>)
        requires
            old(self).v_inv(),
        ensures
            final(self).v_inv(),
            final(self).v_ok() == old(self).v_ok(),
            r is Ok && prune ==> table_cleared(
                old(self).vstore(),
                final(self).vstore(),
                table_name@,
            ),
            r is Ok && !prune ==> soft_swept_table(
                old(self).vstore(),
                final(self).vstore(),
                table_name@,
            ),
            old(self).v_ok() && prune ==> r is Ok,
            old(self).v_ok() && !prune && sweepable(table_at(old(self).vstore(), table_name@))
                ==> r is Ok,
    ;

    /// Delete every live table under the same prune-or-tombstone policy.
    fn clear(&mut self, prune: bool) -> (r: Result<(), KvError>)
        requires
            old(self).v_inv(),
        ensures
            final(self).v_inv(),
            final(self).v_ok() == old(self).v_ok(),
            r is Ok && prune ==> cleared_all(old(self).vstore(), final(self).vstore()),
            r is Ok && !prune ==> soft_swept_all(old(self).vstore(), final(self).vstore()),
            old(self).v_ok() && prune ==> r is Ok,
            old(self).v_ok() && !prune && (forall|t: Seq<char>|
                #[trigger] old(self).vstore().contains_key(t) ==> sweepable(
                    table_at(old(self).vstore(), t),
                )) ==> r is Ok,
    ;

    /// Set the key to `value` (or to a tombstone for `None`) at the next
    /// version: the stored version plus one, or one for an absent key. This
    /// is the only entry point that guarantees monotonic per-key versioning;
    /// a counter at its maximum is an error, never a wraparound.
    fn update(&mut self, table_name: &str, key: &str, value: Option<&[u8]>) -> (r: Result<
        Option<VersionedObject>,
        KvError,
    >)
        requires
            old(self).v_inv(),
            value is Some ==> (value->0)@.len() <= u32::MAX,
        ensures
            final(self).v_inv(),
            final(self).v_ok() == old(self).v_ok(),
            old(self).v_ok() && r is Err ==> final(self).vstore() == old(self).vstore(),
            r is Ok && value is Some ==> (match stored_object(
                old(self).vstore(),
                table_name@,
                key@,
            ) {
                None => r->Ok_0 is None && final(self).vstore() == tbl_insert(
                    old(self).vstore(),
                    table_name@,
                    key@,
                    spec_encode(Some(value->0@), 1),
                ),
                Some(p) => {
                    &&& p is Some
                    &&& r->Ok_0 is Some
                    &&& (r->Ok_0->0)@ == p->0
                    &&& (p->0).1 < u64::MAX
                    &&& final(self).vstore() == tbl_insert(
                        old(self).vstore(),
                        table_name@,
                        key@,
                        spec_encode(Some(value->0@), ((p->0).1 + 1) as u64),
                    )
                },
            }),
            r is Ok && value is None ==> (match stored_object(
                old(self).vstore(),
                table_name@,
                key@,
            ) {
                None => r->Ok_0 is None && final(self).vstore() == old(self).vstore(),
                Some(p) => {
                    &&& p is Some
                    &&& r->Ok_0 is Some
                    &&& (r->Ok_0->0)@ == p->0
                    &&& (p->0).1 < u64::MAX
                    &&& final(self).vstore() == tbl_insert(
                        old(self).vstore(),
                        table_name@,
                        key@,
                        spec_encode(None, ((p->0).1 + 1) as u64),
                    )
                },
            }),
            old(self).v_ok() ==> (r is Ok <==> (match stored_object(
                old(self).vstore(),
                table_name@,
                key@,
            ) {
                None => true,
                Some(p) => p is Some && (p->0).1 < u64::MAX,
            })),
            old(self).v_ok() && r is Err ==> r == Err::<Option<VersionedObject>, KvError>(
                KvError::InvalidData,
            ),
    {
        let cur = match self.get(table_name, key) {
            Ok(c) => c,
            Err(e) => {
                return Err(e);
            },
        };
        match value {
            Some(v) => {
                let new_version: u64 = match &cur {
                    Some(o) => {
                        if o.version == u64::MAX {
                            return Err(KvError::InvalidData);
                        }
                        o.version + 1
                    },
                    None => 1,
                };
                self.insert(table_name, key, v, new_version)
            },
            None => self.remove(table_name, key, false),
        }
    }

    /// Whether a live table of this name exists.
    fn contains_table(&self, table_name: &str) -> (r: Result<bool, KvError>)
        requires
            self.v_inv(),
        ensures
            r is Ok ==> r->Ok_0 == self.vstore().contains_key(table_name@),
            self.v_ok() ==> r is Ok,
    {
        let names = match self.table_names() {
            Ok(v) => v,
            Err(e) => {
                return Err(e);
            },
        };
        let found = names_contain(&names, table_name);
        proof {
            lemma_names_match_contains(names.deep_view(), self.vstore().dom(), table_name@);
        }
        Ok(found)
    }

    /// Whether the table holds the key (decoding it on the way).
    fn contains_key(&self, table_name: &str, key: &str) -> (r: Result<bool, KvError>)
        requires
            self.v_inv(),
        ensures
            r is Ok ==> r->Ok_0 == (stored_object(self.vstore(), table_name@, key@) is Some),
            self.v_ok() ==> (r is Ok <==> !corrupt_at(self.vstore(), table_name@, key@)),
    {
        match self.get(table_name, key) {
            Ok(v) => Ok(v.is_some()),
            Err(e) => Err(e),
        }
    }

    /// All keys of the table, each exactly once.
    fn keys(&self, table_name: &str) -> (r: Result<Vec<String>, KvError>)
        requires
            self.v_inv(),
        ensures
            r is Ok ==> names_match(
                (r->Ok_0).deep_view(),
                table_at(self.vstore(), table_name@).dom(),
            ),
            self.v_ok() ==> (r is Ok <==> table_decodable(table_at(self.vstore(), table_name@))),
    {
        let all = match self.iter(table_name) {
            Ok(v) => v,
            Err(e) => {
                return Err(e);
            },
        };
        let ghost s = all.deep_view();
        let ghost tm = table_at(self.vstore(), table_name@);
        let n = all.len();
        let mut out: Vec<String> = Vec::new();
        let mut i: usize = 0;
        while i < n
            invariant
                i <= n,
                n == all.len(),
                s == all.deep_view(),
                vpairs_decode_match(s, tm),
                out.len() == i,
                forall|j: int| 0 <= j < i ==> out.deep_view()[j] == s[j].0,
            decreases n - i,
        {
            let ghost prev = out.deep_view();
            out.push(all[i].0.clone());
            proof {
                assert forall|j: int| 0 <= j < i + 1 implies out.deep_view()[j] == s[j].0 by {
                    if j < i {
                        assert(out@[j] == out@.drop_last()[j]);
                        assert(out.deep_view()[j] == prev[j]);
                    } else {
                        assert(out@[j].deep_view() == all@[i as int].0@);
                    }
                }
            }
            i = i + 1;
        }
        proof {
            let od = out.deep_view();
            assert forall|k: Seq<char>| tm.dom().contains(k) implies exists|j: int|
                0 <= j < od.len() && #[trigger] od[j] == k by {
                let l = choose|l: int| 0 <= l < s.len() && (#[trigger] s[l]).0 == k;
                assert(od[l] == k);
            }
        }
        Ok(out)
    }

    /// The decoded objects of the table: the value column of one full
    /// enumeration.
    fn values(&self, table_name: &str) -> (r: Result<Vec<VersionedObject>, KvError>)
        requires
            self.v_inv(),
        ensures
            r is Ok ==> (exists|s: Seq<(Seq<char>, (Option<Seq<u8>>, u64))>|
                vpairs_decode_match(s, table_at(self.vstore(), table_name@))
                    && (r->Ok_0).deep_view() == s.map_values(
                    |p: (Seq<char>, (Option<Seq<u8>>, u64))| p.1,
                )),
            self.v_ok() ==> (r is Ok <==> table_decodable(table_at(self.vstore(), table_name@))),
    {
        let all = match self.iter(table_name) {
            Ok(v) => v,
            Err(e) => {
                return Err(e);
            },
        };
        let ghost s = all.deep_view();
        let n = all.len();
        let mut out: Vec<VersionedObject> = Vec::new();
        let mut i: usize = 0;
        while i < n
            invariant
                i <= n,
                n == all.len(),
                s == all.deep_view(),
                out.len() == i,
                forall|j: int| 0 <= j < i ==> out.deep_view()[j] == s[j].1,
            decreases n - i,
        {
            let ghost prev = out.deep_view();
            let o = all[i].1.duplicate();
            out.push(o);
            proof {
                assert forall|j: int| 0 <= j < i + 1 implies out.deep_view()[j] == s[j].1 by {
                    if j < i {
                        assert(out@[j] == out@.drop_last()[j]);
                        assert(out.deep_view()[j] == prev[j]);
                    } else {
                        assert(out@[j].deep_view() == o@);
                    }
                }
            }
            i = i + 1;
        }
        proof {
            assert(out.deep_view() =~= s.map_values(
                |p: (Seq<char>, (Option<Seq<u8>>, u64))| p.1,
            ));
        }
        Ok(out)
    }

    /// The decoded pairs of the table whose keys start with `prefix`.
    fn iter_from_prefix(&self, table_name: &str, prefix: &str) -> (r: Result<
        Vec<(String, VersionedObject)>,
        KvError,
    >)
        requires
            self.v_inv(),
        ensures
            r is Ok ==> vpairs_decode_match(
                (r->Ok_0).deep_view(),
                prefix_filter(table_at(self.vstore(), table_name@), prefix@),
            ),
            self.v_ok() ==> (r is Ok <==> table_decodable(table_at(self.vstore(), table_name@))),
    {
        let all = match self.iter(table_name) {
            Ok(v) => v,
            Err(e) => {
                return Err(e);
            },
        };
        let ghost s = all.deep_view();
        let ghost tm = table_at(self.vstore(), table_name@);
        let ghost pred = (|pr: (Seq<char>, (Option<Seq<u8>>, u64))| spec_is_prefix(prefix@, pr.0));
        let n = all.len();
        let mut out: Vec<(String, VersionedObject)> = Vec::new();
        let mut i: usize = 0;
        proof {
            assert(s.take(0) =~= Seq::<(Seq<char>, (Option<Seq<u8>>, u64))>::empty());
            assert(out.deep_view() =~= s.take(0).filter(pred));
        }
        while i < n
            invariant
                i <= n,
                n == all.len(),
                s == all.deep_view(),
                vpairs_decode_match(s, tm),
                pred == (|pr: (Seq<char>, (Option<Seq<u8>>, u64))| spec_is_prefix(prefix@, pr.0)),
                out.deep_view() == s.take(i as int).filter(pred),
            decreases n - i,
        {
            let ghost prev = out.deep_view();
            proof {
                reveal(Seq::filter);
                assert(s.take(i + 1 as int).drop_last() =~= s.take(i as int));
                assert(s.take(i + 1 as int).last() == s[i as int]);
            }
            if str_has_prefix(all[i].0.as_str(), prefix) {
                let pair = (all[i].0.clone(), all[i].1.duplicate());
                proof {
                    assert(pair.deep_view() == s[i as int]);
                }
                out.push(pair);
                proof {
                    assert(out.deep_view() =~= prev.push(s[i as int]));
                    assert(pred(s[i as int]));
                }
            } else {
                proof {
                    assert(!pred(s[i as int]));
                }
            }
            i = i + 1;
        }
        proof {
            assert(s.take(n as int) =~= s);
            let od = out.deep_view();
            let fm = prefix_filter(tm, prefix@);
            crate::smap::lemma_filter_elements(s, pred);
            assert forall|a: int| 0 <= a < od.len() implies fm.contains_key((#[trigger] od[a]).0)
                && spec_decode(fm[od[a].0]) == Some(od[a].1) by {
                assert(s.contains(od[a]) && pred(od[a]));
                let l = choose|l: int| 0 <= l < s.len() && s[l] == od[a];
                assert(tm.contains_key(s[l].0));
            }
            assert forall|k: Seq<char>| fm.contains_key(k) implies exists|a: int|
                0 <= a < od.len() && (#[trigger] od[a]).0 == k by {
                assert(tm.contains_key(k));
                let l = choose|l: int| 0 <= l < s.len() && (#[trigger] s[l]).0 == k;
                assert(pred(s[l]));
                assert(od.contains(s[l]));
                let a = choose|a: int| 0 <= a < od.len() && od[a] == s[l];
                assert(od[a].0 == k);
            }
        }
        Ok(out)
    }
}

impl<T: KeyValueDB> VersionedKeyValueDB for T {
    open spec fn vstore(&self) -> TablesView {
        self.model()
    }

    open spec fn v_inv(&self) -> bool {
        self.inv()
    }

    open spec fn v_ok(&self) -> bool {
        self.always_ok()
    }

    fn insert(&mut self, table_name: &str, key: &str, value: &[u8], version: u64) -> (r: Result<
        Option<VersionedObject>,
        KvError,
    >) {
        let old_bytes = match KeyValueDB::get(self, table_name, key) {
            Ok(b) => b,
            Err(e) => {
                return Err(e);
            },
        };
        let old_obj = match old_bytes {
            Some(b) => match decode(b.as_slice()) {
                Ok(o) => Some(o),
                Err(e) => {
                    return Err(e);
                },
            },
            None => None,
        };
        let v = vstd::slice::slice_to_vec(value);
        proof {
            assert(v.deep_view() =~= value@);
        }
        let obj = VersionedObject { value: Some(v), version };
        let enc = encode(&obj);
        match KeyValueDB::insert(self, table_name, key, enc.as_slice()) {
            Ok(_) => Ok(old_obj),
            Err(e) => Err(e),
        }
    }

    fn get(&self, table_name: &str, key: &str) -> (r: Result<Option<VersionedObject>, KvError>) {
        let bytes = match KeyValueDB::get(self, table_name, key) {
            Ok(b) => b,
            Err(e) => {
                return Err(e);
            },
        };
        match bytes {
            Some(b) => match decode(b.as_slice()) {
                Ok(o) => Ok(Some(o)),
                Err(e) => Err(e),
            },
            None => Ok(None),
        }
    }

    fn remove(&mut self, table_name: &str, key: &str, prune: bool) -> (r: Result<
        Option<VersionedObject>,
        KvError,
    >) {
        let old_bytes = match KeyValueDB::get(self, table_name, key) {
            Ok(b) => b,
            Err(e) => {
                return Err(e);
            },
        };
        let b = match old_bytes {
            Some(b) => b,
            None => {
                return Ok(None);
            },
        };
        let obj = match decode(b.as_slice()) {
            Ok(o) => o,
            Err(e) => {
                return Err(e);
            },
        };
        if prune {
            match KeyValueDB::remove(self, table_name, key) {
                Ok(_) => Ok(Some(obj)),
                Err(e) => Err(e),
            }
        } else {
            if obj.version == u64::MAX {
                return Err(KvError::InvalidData);
            }
            let tomb = VersionedObject { value: None, version: obj.version + 1 };
            let enc = encode(&tomb);
            match KeyValueDB::insert(self, table_name, key, enc.as_slice()) {
                Ok(_) => Ok(Some(obj)),
                Err(e) => Err(e),
            }
        }
    }

    fn iter(&self, table_name: &str) -> (r: Result<Vec<(String, VersionedObject)>, KvError>) {
        let ghost tm = table_at(self.model(), table_name@);
        let all = match KeyValueDB::iter(self, table_name) {
            Ok(v) => v,
            Err(e) => {
                proof {
                    assert(self.always_ok() ==> false);
                }
                return Err(e);
            },
        };
        let r = decode_pairs(all, Ghost(tm));
        proof {
            if self.always_ok() && table_decodable(tm) {
                assert(r is Ok);
            }
        }
        r
    }

    fn table_names(&self) -> (r: Result<Vec<String>, KvError>) {
        KeyValueDB::table_names(self)
    }

    fn delete_table(&mut self, table_name: &str, prune: bool) -> (r: Result<(), KvError>) {
        if prune {
            return KeyValueDB::delete_table(self, table_name);
        }
        let ks = match VersionedKeyValueDB::keys(self, table_name) {
            Ok(v) => v,
            Err(e) => {
                proof {
                    if old(self).v_ok() && sweepable(
                        table_at(old(self).vstore(), table_name@),
                    ) {
                        assert(table_decodable(table_at(old(self).vstore(), table_name@)));
                        assert(false);
                    }
                }
                return Err(e);
            },
        };
        let ghost m0 = self.model();
        let ghost t = table_name@;
        let ghost tm0 = table_at(m0, t);
        let ghost names = ks.deep_view();
        let n = ks.len();
        let mut i: usize = 0;
        while i < n
            invariant
                i <= n,
                n == ks.len(),
                names == ks.deep_view(),
                names_match(names, tm0.dom()),
                t == table_name@,
                !prune,
                m0 == old(self).vstore(),
                self.inv(),
                self.always_ok() == old(self).always_ok(),
                self.model().remove(t) == m0.remove(t),
                self.model().contains_key(t) == m0.contains_key(t),
                table_at(self.model(), t).dom() == tm0.dom(),
                forall|j: int|
                    i <= j < n ==> tbl_get(self.model(), t, #[trigger] names[j]) == tbl_get(
                        m0,
                        t,
                        names[j],
                    ),
                forall|j: int|
                    0 <= j < i ==> (tbl_get(self.model(), t, #[trigger] names[j]) matches Some(b)
                        && spec_decode(b) matches Some(p) && p.0 is None),
            decreases n - i,
        {
            let ghost mpre = self.model();
            proof {
                assert(tm0.dom().contains(names[i as int]));
                assert(table_at(mpre, t).contains_key(names[i as int]));
                assert(tbl_get(mpre, t, names[i as int]) is Some);
            }
            let res = VersionedKeyValueDB::remove(self, table_name, ks[i].as_str(), false);
            match res {
                Ok(_) => {},
                Err(e) => {
                    proof {
                        if old(self).v_ok() && sweepable(table_at(old(self).vstore(), t)) {
                            let k0 = names[i as int];
                            assert(table_at(m0, t) == tm0);
                            assert(tm0.contains_key(k0));
                            assert(m0.contains_key(t));
                            assert(tbl_get(m0, t, k0) == Some(tm0[k0]));
                            assert(tbl_get(mpre, t, k0) == Some(tm0[k0]));
                            assert(spec_decode(tm0[k0]) matches Some(p) && p.1 < u64::MAX);
                            assert(false);
                        }
                    }
                    return Err(e);
                },
            }
            proof {
                let k0 = names[i as int];
                let p = spec_decode(tbl_get(mpre, t, k0)->0);
                assert(p is Some);
                let enc = spec_encode(None, ((p->0).1 + 1) as u64);
                assert(self.model() == tbl_insert(mpre, t, k0, enc));
                crate::versioned::lemma_codec_roundtrip(None, ((p->0).1 + 1) as u64);
                assert(self.model().remove(t) =~= mpre.remove(t));
                assert(table_at(self.model(), t).dom() =~= table_at(mpre, t).dom());
                assert forall|j: int|
                    0 <= j < i + 1 implies (tbl_get(self.model(), t, #[trigger] names[j]) matches
                Some(b) && spec_decode(b) matches Some(q) && q.0 is None) by {
                    if j < i {
                        assert(names[j] != k0);
                        assert(tbl_get(self.model(), t, names[j]) == tbl_get(mpre, t, names[j]));
                    } else {
                        assert(tbl_get(self.model(), t, k0) == Some(enc));
                    }
                }
                assert forall|j: int|
                    i + 1 <= j < n implies tbl_get(self.model(), t, #[trigger] names[j])
                    == tbl_get(m0, t, names[j]) by {
                    assert(names[j] != k0);
                    assert(tbl_get(self.model(), t, names[j]) == tbl_get(mpre, t, names[j]));
                }
            }
            i = i + 1;
        }
        proof {
            assert forall|k: Seq<char>| #[trigger] table_at(self.model(), t).contains_key(
                k,
            ) implies (spec_decode(table_at(self.model(), t)[k]) matches Some(p)
                && p.0 is None) by {
                assert(tm0.dom().contains(k));
                let j = choose|j: int| 0 <= j < names.len() && #[trigger] names[j] == k;
                assert(tbl_get(self.model(), t, names[j]) matches Some(b) && spec_decode(b) matches
                    Some(p) && p.0 is None);
                assert(tbl_get(self.model(), t, k) == Some(table_at(self.model(), t)[k]));
            }
        }
        Ok(())
    }

    fn clear(&mut self, prune: bool) -> (r: Result<(), KvError>) {
        let ts = match VersionedKeyValueDB::table_names(self) {
            Ok(v) => v,
            Err(e) => {
                proof {
                    assert(!old(self).v_ok());
                }
                return Err(e);
            },
        };
        let ghost m0 = self.model();
        let ghost names = ts.deep_view();
        let n = ts.len();
        let mut i: usize = 0;
        while i < n
            invariant
                i <= n,
                n == ts.len(),
                names == ts.deep_view(),
                names_match(names, m0.dom()),
                m0 == old(self).vstore(),
                self.inv(),
                self.always_ok() == old(self).always_ok(),
                prune ==> (forall|j: int|
                    i <= j < n ==> (self.model().contains_key(#[trigger] names[j])
                        == m0.contains_key(names[j]) && (self.model().contains_key(names[j])
                        ==> self.model()[names[j]] == m0[names[j]]))),
                prune ==> (forall|j: int|
                    0 <= j < i ==> (self.model().contains_key(#[trigger] names[j])
                        ==> self.model()[names[j]] == Map::<Seq<char>, Seq<u8>>::empty())),
                prune ==> (forall|t: Seq<char>|
                    #[trigger] self.model().contains_key(t) ==> m0.contains_key(t)),
                !prune ==> self.model().dom() == m0.dom(),
                !prune ==> (forall|j: int|
                    i <= j < n ==> table_at(self.model(), #[trigger] names[j]) == table_at(
                        m0,
                        names[j],
                    )),
                !prune ==> (forall|j: int|
                    0 <= j < i ==> soft_swept_table(m0, self.model(), names[j]) || table_at(
                        self.model(),
                        #[trigger] names[j],
                    ).dom() == table_at(m0, names[j]).dom()),
                !prune ==> (forall|j: int|
                    0 <= j < i ==> (table_at(self.model(), #[trigger] names[j]).dom() == table_at(
                        m0,
                        names[j],
                    ).dom() && (forall|k: Seq<char>|
                        #[trigger] table_at(self.model(), names[j]).contains_key(k) ==> (
                        spec_decode(table_at(self.model(), names[j])[k]) matches Some(p)
                            && p.0 is None)))),
            decreases n - i,
        {
            let ghost mpre = self.model();
            let res = VersionedKeyValueDB::delete_table(self, ts[i].as_str(), prune);
            match res {
                Ok(_) => {},
                Err(e) => {
                    proof {
                        let t0 = names[i as int];
                        if old(self).v_ok() && prune {
                            assert(false);
                        }
                        if old(self).v_ok() && !prune && (forall|t: Seq<char>|
                            #[trigger] old(self).vstore().contains_key(t) ==> sweepable(
                                table_at(old(self).vstore(), t),
                            )) {
                            assert(m0.dom().contains(t0));
                            assert(old(self).vstore().contains_key(t0));
                            assert(sweepable(table_at(old(self).vstore(), t0)));
                            assert(table_at(mpre, t0) == table_at(m0, t0));
                            assert(sweepable(table_at(mpre, t0)));
                            assert(false);
                        }
                    }
                    return Err(e);
                },
            }
            proof {
                let t0 = names[i as int];
                let m1 = self.model();
                if prune {
                    let empty_tbl = Map::<Seq<char>, Seq<u8>>::empty();
                    assert(m1 == mpre.remove(t0) || m1 == (if mpre.contains_key(t0) {
                        mpre.insert(t0, empty_tbl)
                    } else {
                        mpre
                    }));
                    assert forall|j: int| i + 1 <= j < n implies (m1.contains_key(
                        #[trigger] names[j],
                    ) == m0.contains_key(names[j]) && (m1.contains_key(names[j]) ==> m1[names[j]]
                        == m0[names[j]])) by {
                        assert(names[j] != t0);
                        assert(mpre.contains_key(names[j]) == m0.contains_key(names[j]));
                    }
                    assert forall|j: int| 0 <= j < i + 1 implies (m1.contains_key(
                        #[trigger] names[j],
                    ) ==> m1[names[j]] == empty_tbl) by {
                        if j < i {
                            assert(names[j] != t0);
                            assert(mpre.contains_key(names[j]) ==> mpre[names[j]] == empty_tbl);
                        }
                    }
                    assert forall|t: Seq<char>| #[trigger] m1.contains_key(t) implies
                        m0.contains_key(t) by {
                        if m1 == mpre.remove(t0) {
                            assert(mpre.contains_key(t));
                        } else if mpre.contains_key(t0) {
                            assert(mpre.contains_key(t));
                        } else {
                            assert(m1 == mpre);
                        }
                    }
                } else {
                    assert(m1.remove(t0) == mpre.remove(t0));
                    assert(m1.dom() =~= mpre.dom());
                    assert forall|j: int| i + 1 <= j < n implies table_at(
                        m1,
                        #[trigger] names[j],
                    ) == table_at(m0, names[j]) by {
                        assert(names[j] != t0);
                        lemma_table_frame(m1, mpre, t0, names[j]);
                    }
                    assert forall|j: int| 0 <= j < i + 1 implies (table_at(
                        m1,
                        #[trigger] names[j],
                    ).dom() == table_at(m0, names[j]).dom() && (forall|k: Seq<char>|
                        #[trigger] table_at(m1, names[j]).contains_key(k) ==> (spec_decode(
                            table_at(m1, names[j])[k],
                        ) matches Some(p) && p.0 is None))) by {
                        if j < i {
                            assert(names[j] != t0);
                            lemma_table_frame(m1, mpre, t0, names[j]);
                        } else {
                            assert(table_at(mpre, t0) == table_at(m0, t0));
                        }
                    }
                }
            }
            i = i + 1;
        }
        proof {
            if prune {
                assert forall|t: Seq<char>| self.model().contains_key(t) implies m0.contains_key(
                    t,
                ) && self.model()[t] == Map::<Seq<char>, Seq<u8>>::empty() by {
                    assert(m0.contains_key(t));
                    assert(m0.dom().contains(t));
                    let j = choose|j: int| 0 <= j < names.len() && #[trigger] names[j] == t;
                    assert(self.model().contains_key(names[j]) ==> self.model()[names[j]] == Map::<
                        Seq<char>,
                        Seq<u8>,
                    >::empty());
                }
                assert(self.model().dom().subset_of(m0.dom()));
            } else {
                assert forall|t: Seq<char>| #[trigger] self.model().contains_key(t) implies (
                table_at(self.model(), t).dom() == table_at(m0, t).dom() && (forall|k: Seq<char>|
                    #[trigger] table_at(self.model(), t).contains_key(k) ==> (spec_decode(
                        table_at(self.model(), t)[k],
                    ) matches Some(p) && p.0 is None))) by {
                    assert(m0.contains_key(t));
                    assert(m0.dom().contains(t));
                    let j = choose|j: int| 0 <= j < names.len() && #[trigger] names[j] == t;
                }
            }
        }
        Ok(())
    }
}

/// Monotonic versioning, spelled out: a successful `update` over a store
/// holding version `n` under the key leaves the key holding the written
/// payload at version `n + 1`, and a key never written before ends up at
/// version one. This follows from `update`'s contract and the codec round
/// trip.
pub proof fn lemma_update_bumps_version(
    m0: TablesView,
    m1: TablesView,
    t: Seq<char>,
    k: Seq<char>,
    v: Seq<u8>,
)
    requires
        v.len() <= u32::MAX,
        match stored_object(m0, t, k) {
            None => m1 == tbl_insert(m0, t, k, spec_encode(Some(v), 1)),
            Some(p) => p is Some && (p->0).1 < u64::MAX && m1 == tbl_insert(
                m0,
                t,
                k,
                spec_encode(Some(v), ((p->0).1 + 1) as u64),
            ),
        },
    ensures
        stored_object(m1, t, k) matches Some(p1) && p1 is Some && (p1->0).0 == Some(v),
        match stored_object(m0, t, k) {
            None => (stored_object(m1, t, k)->0->0).1 == 1,
            Some(p) => (stored_object(m1, t, k)->0->0).1 == (p->0).1 + 1 && (stored_object(
                m1,
                t,
                k,
            )->0->0).1 > (p->0).1,
        },
{
    match stored_object(m0, t, k) {
        None => {
            crate::versioned::lemma_codec_roundtrip(Some(v), 1);
        },
        Some(p) => {
            crate::versioned::lemma_codec_roundtrip(Some(v), ((p->0).1 + 1) as u64);
        },
    }
}

} // verus!
