use vstd::prelude::*;

use crate::error::KvError;
use crate::kvdb::{KeyValueDB, TablesView, prefix_filter, table_at, tbl_get, tbl_insert, tbl_remove};
use crate::overlay::{OverlayDB, reserved_name, u32_be_bytes, u32_of_be};
use crate::smap::{assoc_map, names_match, pairs_match};

verus! {

/// One request to the store's owner task. Hosts that forbid sharing the
/// store across tasks run a single owner that executes these strictly in
/// arrival order, replying to each before taking the next.
pub enum StoreCommand {
    Insert { table_name: String, key: String, value: Vec<u8> },
    Get { table_name: String, key: String },
    Remove { table_name: String, key: String },
    Iter { table_name: String },
    IterFromPrefix { table_name: String, prefix: String },
    TableNames,
    DeleteTable { table_name: String },
    Clear,
    GetTableVersion { table_name: String },
    RestoreBackup { table_name: String, data: Vec<(String, Vec<u8>)>, new_version: u32 },
}

/// The reply to one command.
pub enum StoreResponse {
    Value(Result<Option<Vec<u8>>, KvError>),
    Pairs(Result<Vec<(String, Vec<u8>)>, KvError>),
    Names(Result<Vec<String>, KvError>),
    Unit(Result<(), KvError>),
    Version(Result<Option<u32>, KvError>),
}

/// The single owner of a store: every operation is a command handled to
/// completion before the next, so all operations against the store are
/// totally ordered without a lock.
pub struct StoreActor {
    db: OverlayDB,
}

impl StoreActor {
    /// The owned store's visible tables.
    pub closed spec fn model(&self) -> TablesView {
        self.db.model()
    }

    /// Internal well-formedness of the owned store.
    pub closed spec fn inv(&self) -> bool {
        self.db.inv()
    }

    /// The owned store's recorded backup version bytes.
    pub closed spec fn version_bytes(&self, t: Seq<char>) -> Option<Seq<u8>> {
        self.db.version_bytes(t)
    }

    /// Take ownership of the store.
    pub fn new(db: OverlayDB) -> (r: Self)
        requires
            db.inv(),
        ensures
            r.inv(),
            r.model() == db.model(),
    {
        StoreActor { db }
    }

    /// Execute one command against the owned store and produce its reply:
    /// the step function of the owner task. Each command has exactly the
    /// effect the corresponding store operation has.
    pub fn handle(&mut self, cmd: StoreCommand) -> (r: StoreResponse)
        requires
            old(self).inv(),
        ensures
            final(self).inv(),
            cmd matches StoreCommand::Insert { table_name, key, value } ==> (match r {
                StoreResponse::Value(res) => {
                    &&& (reserved_name(table_name@) <==> res == Err::<Option<Vec<u8>>, KvError>(
                        KvError::InvalidInput,
                    ))
                    &&& res is Ok ==> final(self).model() == tbl_insert(
                        old(self).model(),
                        table_name@,
                        key@,
                        value@,
                    ) && (res->Ok_0).deep_view() == tbl_get(old(self).model(), table_name@, key@)
                    &&& res is Err ==> final(self).model() == old(self).model()
                },
                _ => false,
            }),
            cmd matches StoreCommand::Get { table_name, key } ==> (match r {
                StoreResponse::Value(res) => res is Ok && (res->Ok_0).deep_view() == tbl_get(
                    old(self).model(),
                    table_name@,
                    key@,
                ) && final(self).model() == old(self).model(),
                _ => false,
            }),
            cmd matches StoreCommand::Remove { table_name, key } ==> (match r {
                StoreResponse::Value(res) => res is Ok && (res->Ok_0).deep_view() == tbl_get(
                    old(self).model(),
                    table_name@,
                    key@,
                ) && final(self).model() == tbl_remove(old(self).model(), table_name@, key@),
                _ => false,
            }),
            cmd matches StoreCommand::Iter { table_name } ==> (match r {
                StoreResponse::Pairs(res) => res is Ok && pairs_match(
                    (res->Ok_0).deep_view(),
                    table_at(old(self).model(), table_name@),
                ) && final(self).model() == old(self).model(),
                _ => false,
            }),
            cmd matches StoreCommand::IterFromPrefix { table_name, prefix } ==> (match r {
                StoreResponse::Pairs(res) => (res is Ok ==> pairs_match(
                    (res->Ok_0).deep_view(),
                    prefix_filter(table_at(old(self).model(), table_name@), prefix@),
                )) && final(self).model() == old(self).model(),
                _ => false,
            }),
            cmd matches StoreCommand::TableNames ==> (match r {
                StoreResponse::Names(res) => res is Ok && names_match(
                    (res->Ok_0).deep_view(),
                    old(self).model().dom(),
                ) && final(self).model() == old(self).model(),
                _ => false,
            }),
            cmd matches StoreCommand::DeleteTable { table_name } ==> (match r {
                StoreResponse::Unit(res) => {
                    &&& (reserved_name(table_name@) <==> res == Err::<(), KvError>(
                        KvError::InvalidInput,
                    ))
                    &&& res is Ok ==> final(self).model() == old(self).model().remove(table_name@)
                    &&& res is Err ==> final(self).model() == old(self).model()
                },
                _ => false,
            }),
            cmd matches StoreCommand::Clear ==> (match r {
                StoreResponse::Unit(res) => res is Ok && final(self).model() == Map::<
                    Seq<char>,
                    Map<Seq<char>, Seq<u8>>,
                >::empty(),
                _ => false,
            }),
            cmd matches StoreCommand::GetTableVersion { table_name } ==> (match r {
                StoreResponse::Version(res) => final(self).model() == old(self).model() && (
                match old(self).version_bytes(table_name@) {
                    None => res == Ok::<Option<u32>, KvError>(None),
                    Some(b) => match u32_of_be(b) {
                        Some(v) => res == Ok::<Option<u32>, KvError>(Some(v)),
                        None => res == Err::<Option<u32>, KvError>(KvError::InvalidData),
                    },
                }),
                _ => false,
            }),
            cmd matches StoreCommand::RestoreBackup { table_name, data, new_version } ==> (match r {
                StoreResponse::Unit(res) => {
                    &&& (reserved_name(table_name@) <==> res == Err::<(), KvError>(
                        KvError::InvalidInput,
                    ))
                    &&& res is Ok ==> final(self).model() == old(self).model().insert(
                        table_name@,
                        assoc_map(data.deep_view()),
                    ) && final(self).version_bytes(table_name@) == Some(u32_be_bytes(new_version))
                    &&& res is Err ==> final(self).model() == old(self).model()
                },
                _ => false,
            }),
    {
        match cmd {
            StoreCommand::Insert { table_name, key, value } => StoreResponse::Value(
                self.db.insert(table_name.as_str(), key.as_str(), value.as_slice()),
            ),
            StoreCommand::Get { table_name, key } => StoreResponse::Value(
                self.db.get(table_name.as_str(), key.as_str()),
            ),
            StoreCommand::Remove { table_name, key } => StoreResponse::Value(
                self.db.remove(table_name.as_str(), key.as_str()),
            ),
            StoreCommand::Iter { table_name } => StoreResponse::Pairs(
                self.db.iter(table_name.as_str()),
            ),
            StoreCommand::IterFromPrefix { table_name, prefix } => StoreResponse::Pairs(
                self.db.iter_from_prefix(table_name.as_str(), prefix.as_str()),
            ),
            StoreCommand::TableNames => StoreResponse::Names(self.db.table_names()),
            StoreCommand::DeleteTable { table_name } => StoreResponse::Unit(
                self.db.delete_table(table_name.as_str()),
            ),
            StoreCommand::Clear => StoreResponse::Unit(self.db.clear()),
            StoreCommand::GetTableVersion { table_name } => StoreResponse::Version(
                self.db.get_table_version(table_name.as_str()),
            ),
            StoreCommand::RestoreBackup { table_name, data, new_version } => StoreResponse::Unit(
                self.db.restore_backup(table_name.as_str(), &data, new_version),
            ),
        }
    }
}

} // verus!
