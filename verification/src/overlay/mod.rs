use vstd::prelude::*;

use crate::backup::{RunBackupEvent, send_event};
use crate::error::KvError;
use crate::in_memory::InMemoryDB;
use crate::kvdb::{KeyValueDB, TablesView, table_at, tbl_get, tbl_insert, tbl_remove};
use crate::smap::{StrMap, assoc_map, names_match, pairs_match};
use crate::strutil::str_eq;

mod transactional;

pub use transactional::ReadTransaction;
pub use transactional::lemma_commit_publishes_the_view;
pub use transactional::lemma_visible_excludes_reserved;
pub use transactional::WriteTransaction;

verus! {

/// The reserved table that records soft-deleted table names (key = table
/// name, value = empty).
pub open spec fn meta_deleted_name() -> Seq<char> {
    "meta_deleted"@
}

/// The reserved table that records per-table backup version counters
/// (key = table name, value = big-endian version).
pub open spec fn meta_versions_name() -> Seq<char> {
    "meta_versions"@
}

/// Whether `t` is one of the two reserved table names.
pub open spec fn reserved_name(t: Seq<char>) -> bool {
    t == meta_deleted_name() || t == meta_versions_name()
}

/// The two reserved names are distinct from one another.
pub proof fn lemma_reserved_distinct()
    ensures
        meta_deleted_name() != meta_versions_name(),
{
    reveal_strlit("meta_deleted");
    reveal_strlit("meta_versions");
    assert(meta_deleted_name().len() == 12);
    assert(meta_versions_name().len() == 13);
}

/// Decide whether a table name is reserved.
pub fn is_reserved(t: &str) -> (r: bool)
    ensures
        r == reserved_name(t@),
{
    str_eq(t, "meta_deleted") || str_eq(t, "meta_versions")
}

/// The big-endian bytes of a version counter.
pub open spec fn u32_be_bytes(v: u32) -> Seq<u8> {
    seq![(v >> 24) as u8, (v >> 16) as u8, (v >> 8) as u8, v as u8]
}

/// The version counter a byte string holds, if it is well-formed.
pub open spec fn u32_of_be(s: Seq<u8>) -> Option<u32> {
    if s.len() == 4 {
        Some(
            ((s[0] as u32) << 24) | ((s[1] as u32) << 16) | ((s[2] as u32) << 8) | (s[3] as u32),
        )
    } else {
        None
    }
}

/// Encode a version counter as four big-endian bytes.
pub fn encode_u32_be(v: u32) -> (r: Vec<u8>)
    ensures
        r@ == u32_be_bytes(v),
        r.deep_view() == u32_be_bytes(v),
{
    let mut r: Vec<u8> = Vec::new();
    r.push(#[verifier::truncate] ((v >> 24) as u8));
    r.push(#[verifier::truncate] ((v >> 16) as u8));
    r.push(#[verifier::truncate] ((v >> 8) as u8));
    r.push(#[verifier::truncate] (v as u8));
    proof {
        assert(r@ =~= u32_be_bytes(v));
        assert(r.deep_view() =~= r@);
    }
    r
}

/// Decode four big-endian bytes into a version counter.
pub fn decode_u32_be(b: &Vec<u8>) -> (r: Option<u32>)
    ensures
        r == u32_of_be(b@),
{
    if b.len() != 4 {
        return None;
    }
    let v: u32 = ((b[0] as u32) << 24) | ((b[1] as u32) << 16) | ((b[2] as u32) << 8) | (
    b[3] as u32);
    Some(v)
}

/// Round trip of the version codec: decoding an encoded counter gives the
/// counter back.
pub proof fn lemma_u32_be_roundtrip(v: u32)
    ensures
        u32_of_be(u32_be_bytes(v)) == Some(v),
{
    let b0 = (v >> 24) as u8;
    let b1 = (v >> 16) as u8;
    let b2 = (v >> 8) as u8;
    let b3 = v as u8;
    assert((((v >> 24) as u8) as u32) << 24 | (((v >> 16) as u8) as u32) << 16 | (((v >> 8) as u8)
        as u32) << 8 | ((v as u8) as u32) == v) by (bit_vector);
    assert(u32_be_bytes(v) =~= seq![b0, b1, b2, b3]);
}

/// A store with the soft-delete protocol layered over an in-memory base: a
/// deleted table is physically emptied but remembered in a reserved metadata
/// table, so that it can later be resurrected by a write, and reserved
/// tables never appear as ordinary tables.
pub struct OverlayDB {
    base: InMemoryDB,
    deleted: StrMap<()>,
    notifier: Option<futures::channel::mpsc::UnboundedSender<RunBackupEvent>>,
}

impl OverlayDB {
    /// The physical tables of the base store, reserved tables included.
    pub closed spec fn raw(&self) -> TablesView {
        self.base.model()
    }

    /// The set of soft-deleted table names.
    pub closed spec fn dels(&self) -> Set<Seq<char>> {
        self.deleted@.dom()
    }

    /// The recorded backup version bytes of a table, if any.
    pub open spec fn version_bytes(&self, t: Seq<char>) -> Option<Seq<u8>> {
        tbl_get(self.raw(), meta_versions_name(), t)
    }

    /// An empty store: no tables, nothing soft-deleted, no versions.
    pub fn new() -> (r: Self)
        ensures
            r.inv(),
            r.model() == Map::<Seq<char>, Map<Seq<char>, Seq<u8>>>::empty(),
            r.dels() == Set::<Seq<char>>::empty(),
            forall|t: Seq<char>| r.version_bytes(t) is None,
    {
        let r = OverlayDB { base: InMemoryDB::new(), deleted: StrMap::new(), notifier: None };
        proof {
            assert(r.model() =~= Map::<Seq<char>, Map<Seq<char>, Seq<u8>>>::empty());
            assert(r.dels() =~= Set::<Seq<char>>::empty());
        }
        r
    }

    /// Open the store over an existing base: reload the soft-deleted set
    /// from the metadata table and re-clear every table it marks.
    pub fn open(base: InMemoryDB) -> (r: Self)
        ensures
            r.inv(),
            r.model() == base.model().remove_keys(
                table_at(base.model(), meta_deleted_name()).dom(),
            ).remove(meta_deleted_name()).remove(meta_versions_name()),
            forall|t: Seq<char>|
                !reserved_name(t) ==> r.version_bytes(t) == tbl_get(
                    base.model(),
                    meta_versions_name(),
                    t,
                ),
    {
        let mut b = base;
        let ghost m0 = b.model();
        b.remove("meta_deleted", "meta_deleted");
        b.remove("meta_deleted", "meta_versions");
        let ghost m1 = b.model();
        let marks = match b.keys("meta_deleted") {
            Ok(v) => v,
            Err(_) => Vec::new(),
        };
        let ghost names = marks.deep_view();
        let mut deleted: StrMap<()> = StrMap::new();
        let n = marks.len();
        let mut i: usize = 0;
        proof {
            assert(names.take(0).to_set() =~= Set::<Seq<char>>::empty());
            assert(b.model().remove_keys(names.take(0).to_set()) =~= b.model());
        }
        while i < n
            invariant
                i <= n,
                n == marks.len(),
                names == marks.deep_view(),
                names_match(names, table_at(m1, meta_deleted_name()).dom()),
                b.inv(),
                b.always_ok(),
                b.model() == m1.remove_keys(names.take(i as int).to_set()),
                deleted@.dom() == names.take(i as int).to_set(),
            decreases n - i,
        {
            let ghost mpre = b.model();
            let _ = b.delete_table(marks[i].as_str());
            deleted.insert(marks[i].as_str(), ());
            proof {
                crate::smap::lemma_take_to_set_step(names, i as int);
                assert(b.model() =~= m1.remove_keys(names.take(i + 1 as int).to_set()));
                assert(deleted@.dom() =~= names.take(i + 1 as int).to_set());
            }
            i = i + 1;
        }
        let r = OverlayDB { base: b, deleted, notifier: None };
        proof {
            assert(names.take(n as int) =~= names);
            let md = meta_deleted_name();
            let mv = meta_versions_name();
            let marked1 = table_at(m1, md).dom();
            let marked0 = table_at(m0, md).dom();
            assert forall|t: Seq<char>| names.to_set().contains(t) implies marked1.contains(
                t,
            ) by {
                let j = choose|j: int| 0 <= j < names.len() && (#[trigger] names[j]) == t;
            }
            assert forall|t: Seq<char>| marked1.contains(t) implies names.to_set().contains(
                t,
            ) by {
                let j = choose|j: int| 0 <= j < names.len() && (#[trigger] names[j]) == t;
                assert(names.contains(t));
            }
            assert(names.to_set() =~= marked1);
            // the two marker entries removed up front are the reserved names
            assert(table_at(m1, md) =~= table_at(m0, md).remove(md).remove(mv));
            assert(!marked1.contains(md) && !marked1.contains(mv));
            // well-formedness of the result
            assert forall|t: Seq<char>| r.dels().contains(t) implies !r.raw().contains_key(t)
                && !reserved_name(t) by {
                assert(marked1.contains(t));
            }
            assert(r.dels() =~= table_at(r.raw(), md).dom());
            // the advertised model
            assert(r.model() =~= m0.remove_keys(marked0).remove(md).remove(mv));
        }
        r
    }

    /// Give up the store and hand back its base, markers and all, as it
    /// would be persisted.
    pub fn into_base(self) -> (r: InMemoryDB)
        ensures
            r.model() == self.raw(),
    {
        let OverlayDB { base, deleted: _, notifier: _ } = self;
        base
    }

    /// Register (or replace) the listener that receives backup events.
    pub fn add_backup_notifier_sender(
        &mut self,
        sender: futures::channel::mpsc::UnboundedSender<RunBackupEvent>,
    )
        requires
            old(self).inv(),
        ensures
            final(self).inv(),
            final(self).model() == old(self).model(),
            final(self).dels() == old(self).dels(),
            final(self).raw() == old(self).raw(),
    {
        self.notifier = Some(sender);
    }

    /// The recorded backup version of a table: `None` when none was ever
    /// recorded, an error when the recorded bytes are malformed.
    pub fn get_table_version(&self, table_name: &str) -> (r: Result<Option<u32>, KvError>)
        requires
            self.inv(),
        ensures
            match self.version_bytes(table_name@) {
                None => r == Ok::<Option<u32>, KvError>(None),
                Some(b) => match u32_of_be(b) {
                    Some(v) => r == Ok::<Option<u32>, KvError>(Some(v)),
                    None => r == Err::<Option<u32>, KvError>(KvError::InvalidData),
                },
            },
    {
        match self.base.get("meta_versions", table_name) {
            Ok(Some(b)) => match decode_u32_be(&b) {
                Some(v) => Ok(Some(v)),
                None => Err(KvError::InvalidData),
            },
            Ok(None) => Ok(None),
            Err(e) => Err(e),
        }
    }

    /// Replace a table's contents with the given entries, wholesale, and
    /// record `new_version` as its backup version. Later entries of `data`
    /// with the same key override earlier ones. Per-key version bookkeeping
    /// is bypassed: this is the backup-replay path.
    pub fn restore_backup(
        &mut self,
        table_name: &str,
        data: &Vec<(String, Vec<u8>)>,
        new_version: u32,
    ) -> (r: Result<(), KvError>)
        requires
            old(self).inv(),
        ensures
            final(self).inv(),
            reserved_name(table_name@) <==> r == Err::<(), KvError>(KvError::InvalidInput),
            !reserved_name(table_name@) ==> r is Ok,
            r is Err ==> final(self).model() == old(self).model() && final(self).raw() == old(
                self,
            ).raw(),
            r is Ok ==> final(self).model() == old(self).model().insert(
                table_name@,
                assoc_map(data.deep_view()),
            ) && final(self).version_bytes(table_name@) == Some(u32_be_bytes(new_version)) && (
            forall|t2: Seq<char>|
                t2 != table_name@ ==> final(self).version_bytes(t2) == old(self).version_bytes(
                    t2,
                )),
    {
        proof {
            lemma_reserved_distinct();
        }
        if is_reserved(table_name) {
            return Err(KvError::InvalidInput);
        }
        if self.deleted.contains_key(table_name) {
            let _ = self.base.remove("meta_deleted", table_name);
            self.deleted.remove(table_name);
        } else {
            proof {
                assert(self.deleted@.dom().remove(table_name@) =~= self.deleted@.dom());
            }
        }
        let _ = self.base.delete_table(table_name);
        self.base.ensure_table(table_name);
        proof {
            assert(self.dels() =~= table_at(self.raw(), meta_deleted_name()).dom());
            assert forall|t2: Seq<char>| #[trigger] self.dels().contains(t2) implies !self
                .raw().contains_key(t2) by {
                assert(t2 != table_name@);
            }
        }
        let ghost mstart = self.base.model();
        let n = data.len();
        let mut i: usize = 0;
        proof {
            assert(table_at(mstart, table_name@) =~= Map::<Seq<char>, Seq<u8>>::empty());
            assert(table_at(mstart, table_name@) =~= assoc_map(
                data.deep_view().take(0),
            ));
        }
        while i < n
            invariant
                i <= n,
                n == data.len(),
                self.inv_core(),
                self.base.inv(),
                self.base.always_ok(),
                self.dels() == old(self).dels().remove(table_name@),
                !reserved_name(table_name@),
                self.base.model() == mstart.insert(
                    table_name@,
                    assoc_map(data.deep_view().take(i as int)),
                ),
            decreases n - i,
        {
            let ghost mpre = self.base.model();
            let _ = self.base.insert(table_name, data[i].0.as_str(), data[i].1.as_slice());
            proof {
                lemma_reserved_distinct();
                let s = data.deep_view();
                assert(s.take(i + 1 as int).drop_last() =~= s.take(i as int));
                assert(s.take(i + 1 as int).last() == s[i as int]);
                assert(data@[i as int].1.deep_view() =~= data@[i as int].1@);
                assert(self.base.model() =~= mstart.insert(
                    table_name@,
                    assoc_map(s.take(i + 1 as int)),
                ));
                assert(self.dels() =~= table_at(self.raw(), meta_deleted_name()).dom());
                assert forall|t2: Seq<char>| #[trigger] self.dels().contains(t2) implies !self
                    .raw().contains_key(t2) by {
                    assert(t2 != table_name@);
                }
            }
            i = i + 1;
        }
        let vb = encode_u32_be(new_version);
        let _ = self.base.insert("meta_versions", table_name, vb.as_slice());
        proof {
            lemma_reserved_distinct();
            assert(data.deep_view().take(n as int) =~= data.deep_view());
            assert(self.model() =~= old(self).model().insert(
                table_name@,
                assoc_map(data.deep_view()),
            ));
            assert(self.dels() =~= table_at(self.raw(), meta_deleted_name()).dom());
            assert forall|t2: Seq<char>| #[trigger] self.dels().contains(t2) implies !self
                .raw().contains_key(t2) by {
                assert(t2 != table_name@);
            }
            assert(self.version_bytes(table_name@) =~= Some(u32_be_bytes(new_version)));
            assert forall|t2: Seq<char>| t2 != table_name@ implies self.version_bytes(t2) == old(
                self,
            ).version_bytes(t2) by {}
        }
        Ok(())
    }

    /// The store's observable state never contains a reserved table: reads
    /// of the two metadata tables report absence, and listings exclude them.
    pub proof fn lemma_model_excludes_reserved(&self)
        ensures
            forall|t: Seq<char>| reserved_name(t) ==> !(#[trigger] self.model().contains_key(t)),
    {
        assert forall|t: Seq<char>| reserved_name(t) implies !(#[trigger] self.model().contains_key(
            t,
        )) by {
            assert(!self.model().contains_key(meta_deleted_name()));
            assert(!self.model().contains_key(meta_versions_name()));
        }
    }

    /// Internal consistency: soft-deleted tables are physically absent, the
    /// metadata table mirrors the soft-deleted set exactly, and no reserved
    /// name is ever soft-deleted.
    pub closed spec fn inv_core(&self) -> bool {
        &&& forall|t: Seq<char>| #[trigger] self.dels().contains(t) ==> !self.raw().contains_key(t)
        &&& self.dels() == table_at(self.raw(), meta_deleted_name()).dom()
        &&& !self.dels().contains(meta_deleted_name())
        &&& !self.dels().contains(meta_versions_name())
    }
}

impl KeyValueDB for OverlayDB {
    closed spec fn model(&self) -> TablesView {
        self.raw().remove(meta_deleted_name()).remove(meta_versions_name())
    }

    closed spec fn inv(&self) -> bool {
        self.inv_core()
    }

    open spec fn always_ok(&self) -> bool {
        false
    }

    /// Writing to a soft-deleted table resurrects it: the deletion marker is
    /// dropped first, so the table reappears holding only the new entry.
    /// Writing to a reserved table name is refused.
    fn insert(&mut self, table_name: &str, key: &str, value: &[u8]) -> (r: Result<
        Option<Vec<u8>>,
        KvError,
    >)
        ensures
            reserved_name(table_name@) <==> r == Err::<Option<Vec<u8>>, KvError>(
                KvError::InvalidInput,
            ),
            !reserved_name(table_name@) ==> r is Ok,
            r is Err ==> final(self).model() == old(self).model(),
            final(self).dels() == old(self).dels().remove(table_name@),
            forall|t2: Seq<char>| final(self).version_bytes(t2) == old(self).version_bytes(t2),
    {
        proof {
            lemma_reserved_distinct();
        }
        if is_reserved(table_name) {
            proof {
                assert(self.dels() =~= old(self).dels().remove(table_name@));
            }
            return Err(KvError::InvalidInput);
        }
        let ghost m0 = self.raw();
        if self.deleted.contains_key(table_name) {
            let _ = self.base.remove("meta_deleted", table_name);
            self.deleted.remove(table_name);
        }
        let old_v = match self.base.insert(table_name, key, value) {
            Ok(v) => v,
            Err(_) => None,
        };
        proof {
            assert(self.model() =~= tbl_insert(old(self).model(), table_name@, key@, value@));
            assert(self.dels() =~= old(self).dels().remove(table_name@));
            if old(self).dels().contains(table_name@) {
                assert(!m0.contains_key(table_name@));
            }
            assert(old_v.deep_view() == tbl_get(old(self).model(), table_name@, key@));
            assert(self.dels() =~= table_at(self.raw(), meta_deleted_name()).dom());
            assert(self.raw().contains_key(meta_versions_name()) == old(self).raw().contains_key(
                meta_versions_name(),
            ) && (self.raw().contains_key(meta_versions_name()) ==> self.raw()[
                meta_versions_name()] == old(self).raw()[meta_versions_name()]));

            assert forall|t2: Seq<char>| self.dels().contains(t2) implies !self.raw().contains_key(
                t2,
            ) by {
                assert(old(self).dels().contains(t2) && t2 != table_name@);
            }
        }
        self.publish_insert_event(table_name);
        Ok(old_v)
    }

    fn get(&self, table_name: &str, key: &str) -> (r: Result<Option<Vec<u8>>, KvError>)
        ensures
            r is Ok,
    {
        if is_reserved(table_name) {
            return Ok(None);
        }
        if self.deleted.contains_key(table_name) {
            return Ok(None);
        }
        self.base.get(table_name, key)
    }

    /// Removing from a reserved or soft-deleted table reports absence and
    /// changes nothing.
    fn remove(&mut self, table_name: &str, key: &str) -> (r: Result<Option<Vec<u8>>, KvError>)
        ensures
            r is Ok,
            final(self).dels() == old(self).dels(),
            forall|t2: Seq<char>| final(self).version_bytes(t2) == old(self).version_bytes(t2),
    {
        proof {
            lemma_reserved_distinct();
        }
        if is_reserved(table_name) {
            proof {
                assert(self.model() =~= tbl_remove(old(self).model(), table_name@, key@));
            }
            return Ok(None);
        }
        if self.deleted.contains_key(table_name) {
            proof {
                assert(!old(self).raw().contains_key(table_name@));
                assert(self.model() =~= tbl_remove(old(self).model(), table_name@, key@));
            }
            return Ok(None);
        }
        let old_v = match self.base.remove(table_name, key) {
            Ok(v) => v,
            Err(_) => None,
        };
        proof {
            assert(self.model() =~= tbl_remove(old(self).model(), table_name@, key@));
            assert(self.dels() =~= table_at(self.raw(), meta_deleted_name()).dom());
            assert(self.raw().contains_key(meta_versions_name()) == old(self).raw().contains_key(
                meta_versions_name(),
            ) && (self.raw().contains_key(meta_versions_name()) ==> self.raw()[
                meta_versions_name()] == old(self).raw()[meta_versions_name()]));
        }
        if old_v.is_some() {
            self.publish_delete_event(table_name);
        }
        Ok(old_v)
    }

    fn iter(&self, table_name: &str) -> (r: Result<Vec<(String, Vec<u8>)>, KvError>)
        ensures
            r is Ok,
    {
        if is_reserved(table_name) {
            let out: Vec<(String, Vec<u8>)> = Vec::new();
            proof {
                assert(out.deep_view() =~= Seq::<(Seq<char>, Seq<u8>)>::empty());
                assert(pairs_match(out.deep_view(), table_at(self.model(), table_name@)));
            }
            return Ok(out);
        }
        if self.deleted.contains_key(table_name) {
            let out: Vec<(String, Vec<u8>)> = Vec::new();
            proof {
                assert(!self.raw().contains_key(table_name@));
                assert(out.deep_view() =~= Seq::<(Seq<char>, Seq<u8>)>::empty());
                assert(pairs_match(out.deep_view(), table_at(self.model(), table_name@)));
            }
            return Ok(out);
        }
        self.base.iter(table_name)
    }

    fn table_names(&self) -> (r: Result<Vec<String>, KvError>)
        ensures
            r is Ok,
    {
        let all = match self.base.table_names() {
            Ok(v) => v,
            Err(e) => {
                return Err(e);
            },
        };
        let out = crate::listing::filter_names_excluding(&all, "meta_deleted", "meta_versions");
        proof {
            crate::listing::lemma_filter_names(
                all.deep_view(),
                |nm: Seq<char>| nm != "meta_deleted"@ && nm != "meta_versions"@,
            );
            let od = out.deep_view();
            let dom = self.model().dom();
            assert forall|j: int| 0 <= j < od.len() implies dom.contains(#[trigger] od[j]) by {
                assert(all.deep_view().contains(od[j]));
            }
            assert forall|k: Seq<char>| dom.contains(k) implies exists|j: int|
                0 <= j < od.len() && #[trigger] od[j] == k by {
                let l = choose|l: int|
                    0 <= l < all.deep_view().len() && (#[trigger] all.deep_view()[l]) == k;
                assert(od.contains(k));
                let j = choose|j: int| 0 <= j < od.len() && od[j] == k;
            }
        }
        Ok(out)
    }

    /// Soft deletion: the table is physically emptied and its name recorded
    /// in the metadata table, so that it stays deleted across reopening.
    /// Deleting a reserved table name is refused; deleting an absent or
    /// already-deleted table does nothing.
    fn delete_table(&mut self, table_name: &str) -> (r: Result<(), KvError>)
        ensures
            reserved_name(table_name@) <==> r == Err::<(), KvError>(KvError::InvalidInput),
            !reserved_name(table_name@) ==> r is Ok,
            r is Err ==> final(self).model() == old(self).model(),
            r is Ok ==> final(self).model() == old(self).model().remove(table_name@),
            forall|t2: Seq<char>| final(self).version_bytes(t2) == old(self).version_bytes(t2),
    {
        proof {
            lemma_reserved_distinct();
        }
        if is_reserved(table_name) {
            return Err(KvError::InvalidInput);
        }
        if self.deleted.contains_key(table_name) {
            proof {
                assert(!old(self).raw().contains_key(table_name@));
                assert(self.model() =~= old(self).model().remove(table_name@));
            }
            return Ok(());
        }
        let present = match self.base.contains_table(table_name) {
            Ok(b) => b,
            Err(_) => false,
        };
        if !present {
            proof {
                assert(self.model() =~= old(self).model().remove(table_name@));
            }
            return Ok(());
        }
        let _ = self.base.delete_table(table_name);
        let empty_val: Vec<u8> = Vec::new();
        let _ = self.base.insert("meta_deleted", table_name, empty_val.as_slice());
        self.deleted.insert(table_name, ());
        proof {
            assert(self.model() =~= old(self).model().remove(table_name@));
            assert(self.dels() =~= table_at(self.raw(), meta_deleted_name()).dom());
            assert forall|t2: Seq<char>| self.dels().contains(t2) implies !self.raw().contains_key(
                t2,
            ) by {
                if t2 != table_name@ {
                    assert(old(self).dels().contains(t2));
                }
            }
            assert(self.raw().contains_key(meta_versions_name()) == old(self).raw().contains_key(
                meta_versions_name(),
            ) && (self.raw().contains_key(meta_versions_name()) ==> self.raw()[
                meta_versions_name()] == old(self).raw()[meta_versions_name()]));
        }
        self.publish_delete_event(table_name);
        Ok(())
    }

    /// Clearing soft-deletes every live table.
    fn clear(&mut self) -> (r: Result<(), KvError>)
        ensures
            r is Ok,
            final(self).model() == Map::<Seq<char>, Map<Seq<char>, Seq<u8>>>::empty(),
            forall|t2: Seq<char>| final(self).version_bytes(t2) == old(self).version_bytes(t2),
    {
        let ts = match self.table_names() {
            Ok(v) => v,
            Err(e) => {
                return Err(e);
            },
        };
        let ghost m0 = self.model();
        let ghost names = ts.deep_view();
        let n = ts.len();
        let mut i: usize = 0;
        proof {
            assert(names.take(0).to_set() =~= Set::<Seq<char>>::empty());
            assert(m0.remove_keys(names.take(0).to_set()) =~= m0);
        }
        proof {
            assert(!m0.contains_key(meta_deleted_name()));
            assert(!m0.contains_key(meta_versions_name()));
        }
        while i < n
            invariant
                i <= n,
                n == ts.len(),
                names == ts.deep_view(),
                names_match(names, m0.dom()),
                !m0.contains_key(meta_deleted_name()),
                !m0.contains_key(meta_versions_name()),
                self.inv(),
                self.model() == m0.remove_keys(names.take(i as int).to_set()),
                forall|t2: Seq<char>| self.version_bytes(t2) == old(self).version_bytes(t2),
            decreases n - i,
        {
            proof {
                assert(!reserved_name(names[i as int])) by {
                    assert(m0.dom().contains(names[i as int]));
                }
            }
            let res = self.delete_table(ts[i].as_str());
            proof {
                assert(res is Ok);
                crate::smap::lemma_take_to_set_step(names, i as int);
                assert(self.model() =~= m0.remove_keys(names.take(i + 1 as int).to_set()));
            }
            i = i + 1;
        }
        proof {
            assert(names.take(n as int) =~= names);
            assert forall|t: Seq<char>| m0.contains_key(t) implies names.to_set().contains(t) by {
                let j = choose|j: int| 0 <= j < names.len() && #[trigger] names[j] == t;
                assert(names.contains(t));
            }
            assert(self.model() =~= Map::<Seq<char>, Map<Seq<char>, Seq<u8>>>::empty());
        }
        Ok(())
    }
}

impl OverlayDB {
    /// A deep copy of the visible tables: the reserved metadata tables are
    /// left out, and soft-deleted tables are physically absent already.
    pub fn visible_snapshot(&self) -> (r: StrMap<StrMap<Vec<u8>>>)
        requires
            self.inv(),
        ensures
            r@ == self.model(),
            !r@.contains_key(meta_deleted_name()),
            !r@.contains_key(meta_versions_name()),
    {
        let mut m = self.base.snapshot();
        m.remove("meta_deleted");
        m.remove("meta_versions");
        proof {
            assert(m@ =~= self.model());
        }
        m
    }

    /// Create the table empty if it is not visible, undoing a soft deletion
    /// of it; an existing table is left alone.
    pub fn ensure_table(&mut self, table_name: &str)
        requires
            old(self).inv(),
            !reserved_name(table_name@),
        ensures
            final(self).inv(),
            final(self).model() == (if old(self).model().contains_key(table_name@) {
                old(self).model()
            } else {
                old(self).model().insert(table_name@, Map::<Seq<char>, Seq<u8>>::empty())
            }),
            forall|t2: Seq<char>| final(self).version_bytes(t2) == old(self).version_bytes(t2),
    {
        proof {
            lemma_reserved_distinct();
        }
        if self.deleted.contains_key(table_name) {
            let _ = self.base.remove("meta_deleted", table_name);
            self.deleted.remove(table_name);
        }
        self.base.ensure_table(table_name);
        proof {
            assert(self.dels() =~= table_at(self.raw(), meta_deleted_name()).dom());
            assert forall|t2: Seq<char>| self.dels().contains(t2) implies !self.raw().contains_key(
                t2,
            ) by {
                assert(old(self).dels().contains(t2) && t2 != table_name@);
            }
            if old(self).model().contains_key(table_name@) {
                assert(self.model() =~= old(self).model());
            } else {
                assert(self.model() =~= old(self).model().insert(
                    table_name@,
                    Map::<Seq<char>, Seq<u8>>::empty(),
                ));
            }
            assert(self.raw().contains_key(meta_versions_name()) == old(self).raw().contains_key(
                meta_versions_name(),
            ) && (self.raw().contains_key(meta_versions_name()) ==> self.raw()[
                meta_versions_name()] == old(self).raw()[meta_versions_name()]));
        }
    }

    /// Best-effort publication of an insert event to the listener, carrying
    /// the table's recorded backup version (zero when none is readable).
    fn publish_insert_event(&self, table_name: &str)
        requires
            self.inv(),
    {
        if self.notifier.is_some() {
            let version = self.read_version_or_zero(table_name);
            match &self.notifier {
                Some(s) => {
                    let _ = send_event(
                        s,
                        RunBackupEvent::Insert { table_name: table_name.to_owned(), version },
                    );
                },
                None => {},
            }
        }
    }

    /// Best-effort publication of a delete event to the listener.
    fn publish_delete_event(&self, table_name: &str)
        requires
            self.inv(),
    {
        if self.notifier.is_some() {
            let version = self.read_version_or_zero(table_name);
            match &self.notifier {
                Some(s) => {
                    let _ = send_event(
                        s,
                        RunBackupEvent::Delete { table_name: table_name.to_owned(), version },
                    );
                },
                None => {},
            }
        }
    }

    /// The table's recorded backup version, or zero when absent or
    /// malformed.
    fn read_version_or_zero(&self, table_name: &str) -> (r: u32)
        requires
            self.inv(),
    {
        match self.base.get("meta_versions", table_name) {
            Ok(Some(b)) => match decode_u32_be(&b) {
                Some(v) => v,
                None => 0,
            },
            _ => 0,
        }
    }
}

} // verus!
