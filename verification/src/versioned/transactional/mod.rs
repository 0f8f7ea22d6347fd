mod kvdb;

pub use kvdb::KVReadVersionedTransaction;
pub use kvdb::KVWriteVersionedTransaction;
pub use kvdb::VersionedTransactionalKVDB;
