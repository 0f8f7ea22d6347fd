use vstd::prelude::*;

use ::redb::ReadableDatabase;
use ::redb::ReadableTable;

use crate::error::KvError;
use crate::kvdb::{KeyValueDB, TablesView, table_at, tbl_get, tbl_insert, tbl_remove};
use crate::smap::{names_match, pairs_match};

verus! {

#[verifier::external_type_specification]
#[verifier::external_body]
pub struct ExRedbDatabase(redb::Database);

#[verifier::external_type_specification]
#[verifier::external_body]
pub struct ExStorageError(redb::StorageError);

#[verifier::external_type_specification]
#[verifier::external_body]
pub struct ExDatabaseError(redb::DatabaseError);

#[verifier::external_type_specification]
#[verifier::external_body]
pub struct ExTransactionError(redb::TransactionError);

#[verifier::external_type_specification]
#[verifier::external_body]
pub struct ExTableError(redb::TableError);

#[verifier::external_type_specification]
#[verifier::external_body]
pub struct ExCommitError(redb::CommitError);

/// The tables a database file holds, as this process observes them through
/// its open handle.
pub uninterp spec fn redb_tables(db: redb::Database) -> TablesView;

/// A durable store backed by a single database file.
///
/// Every operation is carried out by the file-backed engine behind trusted
/// contracts: each method opens its own transaction, and its contract states
/// over `redb_tables` what the engine's own documentation promises of it.
pub struct RedbDB {
    inner: redb::Database,
}

impl RedbDB {
    /// Open the store at the given path, creating the file if none is there.
    /// The tables it holds are whatever the file already held.
    ///
    /// Relies on `redb::Database::create`.
    #[verifier::external_body]
    pub fn open(path: &str) -> (r: Result<Self, KvError>)
        ensures
            r is Ok ==> (r->Ok_0).inv(),
    {
        let inner = redb::Database::create(path).map_err(database_error_to_kv_error)?;
        Ok(RedbDB { inner })
    }
}

impl RedbDB {
    /// Relies on `redb::WriteTransaction::open_table` (creating the table if
    /// absent), `Table::insert` (returning the value the key held), and
    /// `WriteTransaction::commit` (applying fully or not at all; a failed
    /// commit may still have applied).
    #[verifier::external_body]
    fn raw_insert(&mut self, table_name: &str, key: &str, value: &[u8]) -> (r: Result<
        Option<Vec<u8>>,
        KvError,
    >)
        ensures
            r is Ok ==> redb_tables(final(self).inner) == tbl_insert(
                redb_tables(old(self).inner),
                table_name@,
                key@,
                value@,
            ) && (r->Ok_0).deep_view() == tbl_get(
                redb_tables(old(self).inner),
                table_name@,
                key@,
            ),
            r is Err ==> redb_tables(final(self).inner) == redb_tables(old(self).inner)
                || redb_tables(final(self).inner) == tbl_insert(
                redb_tables(old(self).inner),
                table_name@,
                key@,
                value@,
            ),
    {
        let tx = self.inner.begin_write().map_err(transaction_error_to_kv_error)?;
        let old_value = {
            let mut table = tx.open_table(redb::TableDefinition::<&str, &[u8]>::new(table_name))
                .map_err(table_error_to_kv_error)?;
            let guard = table.insert(key, value).map_err(storage_error_to_kv_error)?;
            let owned = guard.map(|v| v.value().to_vec());
            owned
        };
        tx.commit().map_err(commit_error_to_kv_error)?;
        Ok(old_value)
    }

    /// Relies on `redb::ReadTransaction::open_table` and `Table::get`; a
    /// missing table reads as a missing key.
    #[verifier::external_body]
    fn raw_get(&self, table_name: &str, key: &str) -> (r: Result<Option<Vec<u8>>, KvError>)
        ensures
            r is Ok ==> (r->Ok_0).deep_view() == tbl_get(
                redb_tables(self.inner),
                table_name@,
                key@,
            ),
    {
        let tx = self.inner.begin_read().map_err(transaction_error_to_kv_error)?;
        let table = match tx.open_table(redb::TableDefinition::<&str, &[u8]>::new(table_name)) {
            Ok(table) => table,
            Err(redb::TableError::TableDoesNotExist(_)) => {
                return Ok(None);
            },
            Err(e) => {
                return Err(table_error_to_kv_error(e));
            },
        };
        Ok(table.get(key).map_err(storage_error_to_kv_error)?.map(|v| v.value().to_vec()))
    }

    /// Relies on `Table::remove` (returning the removed value) and
    /// `WriteTransaction::{abort, commit}`; nothing is committed when the
    /// key was absent, and a failed commit may still have applied.
    #[verifier::external_body]
    fn raw_remove(&mut self, table_name: &str, key: &str) -> (r: Result<Option<Vec<u8>>, KvError>)
        ensures
            r is Ok ==> redb_tables(final(self).inner) == tbl_remove(
                redb_tables(old(self).inner),
                table_name@,
                key@,
            ) && (r->Ok_0).deep_view() == tbl_get(
                redb_tables(old(self).inner),
                table_name@,
                key@,
            ),
            r is Err ==> redb_tables(final(self).inner) == redb_tables(old(self).inner)
                || redb_tables(final(self).inner) == tbl_remove(
                redb_tables(old(self).inner),
                table_name@,
                key@,
            ),
    {
        let tx = self.inner.begin_write().map_err(transaction_error_to_kv_error)?;
        let old_value = match tx.open_table(redb::TableDefinition::<&str, &[u8]>::new(table_name)) {
            Ok(mut table) => table.remove(key).map_err(storage_error_to_kv_error)?.map(
                |v| v.value().to_vec(),
            ),
            Err(redb::TableError::TableDoesNotExist(_)) => None,
            Err(e) => return Err(table_error_to_kv_error(e)),
        };
        if old_value.is_none() {
            tx.abort().map_err(storage_error_to_kv_error)?;
        } else {
            tx.commit().map_err(commit_error_to_kv_error)?;
        }
        Ok(old_value)
    }

    /// Relies on `Table::iter` over a read transaction: every pair of the
    /// table, each key once; a missing table enumerates as empty.
    #[verifier::external_body]
    fn raw_iter(&self, table_name: &str) -> (r: Result<Vec<(String, Vec<u8>)>, KvError>)
        ensures
            r is Ok ==> pairs_match(
                (r->Ok_0).deep_view(),
                table_at(redb_tables(self.inner), table_name@),
            ),
    {
        let tx = self.inner.begin_read().map_err(transaction_error_to_kv_error)?;
        let table = match tx.open_table(redb::TableDefinition::<&str, &[u8]>::new(table_name)) {
            Ok(table) => table,
            Err(redb::TableError::TableDoesNotExist(_)) => return Ok(Vec::new()),
            Err(e) => return Err(table_error_to_kv_error(e)),
        };
        let mut result = Vec::new();
        for item in table.iter().map_err(storage_error_to_kv_error)? {
            let (key, value) = item.map_err(storage_error_to_kv_error)?;
            result.push((key.value().to_string(), value.value().to_vec()));
        }
        Ok(result)
    }

    /// Relies on `ReadTransaction::list_tables`: every table name, each
    /// once; a store whose file was never written lists nothing.
    #[verifier::external_body]
    fn raw_table_names(&self) -> (r: Result<Vec<String>, KvError>)
        ensures
            r is Ok ==> names_match(
                (r->Ok_0).deep_view(),
                redb_tables(self.inner).dom(),
            ),
    {
        let tx = self.inner.begin_read().map_err(transaction_error_to_kv_error)?;
        let mut result = Vec::new();
        match tx.list_tables() {
            Ok(tables) => {
                for handle in tables {
                    result.push(redb::TableHandle::name(&handle).to_string());
                }
            },
            Err(e) => {
                return Err(storage_error_to_kv_error(e));
            },
        }
        Ok(result)
    }

    /// Relies on `WriteTransaction::delete_table`: the table is dropped
    /// wholly, committed as one unit; a failed commit may still have
    /// applied.
    #[verifier::external_body]
    fn raw_delete_table(&mut self, table_name: &str) -> (r: Result<(), KvError>)
        ensures
            r is Ok ==> redb_tables(final(self).inner) == redb_tables(old(self).inner).remove(
                table_name@,
            ),
    {
        let tx = self.inner.begin_write().map_err(transaction_error_to_kv_error)?;
        tx.delete_table(redb::TableDefinition::<&str, &[u8]>::new(table_name)).map_err(
            table_error_to_kv_error,
        )?;
        tx.commit().map_err(commit_error_to_kv_error)?;
        Ok(())
    }
}

impl KeyValueDB for RedbDB {
    closed spec fn model(&self) -> TablesView {
        redb_tables(self.inner)
    }

    open spec fn inv(&self) -> bool {
        true
    }

    open spec fn always_ok(&self) -> bool {
        false
    }

    fn insert(&mut self, table_name: &str, key: &str, value: &[u8]) -> (r: Result<
        Option<Vec<u8>>,
        KvError,
    >) {
        self.raw_insert(table_name, key, value)
    }

    fn get(&self, table_name: &str, key: &str) -> (r: Result<Option<Vec<u8>>, KvError>) {
        self.raw_get(table_name, key)
    }

    fn remove(&mut self, table_name: &str, key: &str) -> (r: Result<Option<Vec<u8>>, KvError>) {
        self.raw_remove(table_name, key)
    }

    fn iter(&self, table_name: &str) -> (r: Result<Vec<(String, Vec<u8>)>, KvError>) {
        self.raw_iter(table_name)
    }

    fn table_names(&self) -> (r: Result<Vec<String>, KvError>) {
        self.raw_table_names()
    }

    /// Dropping a table removes it entirely from the file.
    fn delete_table(&mut self, table_name: &str) -> (r: Result<(), KvError>)
        ensures
            r is Ok ==> final(self).model() == old(self).model().remove(table_name@),
    {
        self.raw_delete_table(table_name)
    }
}

/// Map a storage-level failure of the engine into the canonical taxonomy,
/// keeping the kind of an underlying I/O failure where one is named.
/// Relies on the meaning the engine's documentation gives each variant.
#[verifier::external_body]
fn storage_error_to_kv_error(e: redb::StorageError) -> KvError {
    match e {
        redb::StorageError::Io(io_err) => match io_err.kind() {
            std::io::ErrorKind::NotFound => KvError::NotFound,
            std::io::ErrorKind::PermissionDenied => KvError::PermissionDenied,
            std::io::ErrorKind::AlreadyExists => KvError::AlreadyExists,
            std::io::ErrorKind::InvalidInput => KvError::InvalidInput,
            std::io::ErrorKind::InvalidData => KvError::InvalidData,
            _ => KvError::Other,
        },
        redb::StorageError::ValueTooLarge(_) => KvError::InvalidInput,
        redb::StorageError::Corrupted(_) => KvError::InvalidData,
        redb::StorageError::LockPoisoned(_) => KvError::Other,
        _ => KvError::Other,
    }
}

/// Map a database-open failure into the canonical taxonomy.
#[verifier::external_body]
fn database_error_to_kv_error(e: redb::DatabaseError) -> KvError {
    match e {
        redb::DatabaseError::Storage(e) => storage_error_to_kv_error(e),
        redb::DatabaseError::DatabaseAlreadyOpen => KvError::AlreadyExists,
        redb::DatabaseError::RepairAborted => KvError::InvalidData,
        redb::DatabaseError::UpgradeRequired(_) => KvError::Other,
        _ => KvError::Other,
    }
}

/// Map a transaction-begin failure into the canonical taxonomy.
#[verifier::external_body]
fn transaction_error_to_kv_error(e: redb::TransactionError) -> KvError {
    match e {
        redb::TransactionError::Storage(e) => storage_error_to_kv_error(e),
        _ => KvError::Other,
    }
}

/// Map a table-open failure into the canonical taxonomy.
#[verifier::external_body]
fn table_error_to_kv_error(e: redb::TableError) -> KvError {
    match e {
        redb::TableError::Storage(e) => storage_error_to_kv_error(e),
        redb::TableError::TableAlreadyOpen(_, _) => KvError::Other,
        redb::TableError::TableDoesNotExist(_) => KvError::NotFound,
        redb::TableError::TableIsMultimap(_) => KvError::InvalidData,
        redb::TableError::TableIsNotMultimap(_) => KvError::InvalidData,
        redb::TableError::TableTypeMismatch { .. } => KvError::InvalidData,
        _ => KvError::Other,
    }
}

/// Map a commit failure into the canonical taxonomy.
#[verifier::external_body]
fn commit_error_to_kv_error(e: redb::CommitError) -> KvError {
    match e {
        redb::CommitError::Storage(e) => storage_error_to_kv_error(e),
        _ => KvError::Other,
    }
}

} // verus!
