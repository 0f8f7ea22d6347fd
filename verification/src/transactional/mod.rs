mod kvdb;

pub use kvdb::KVReadTransaction;
pub use kvdb::KVWriteTransaction;
pub use kvdb::TransactionalKVDB;
pub use kvdb::apply_delta;
pub use kvdb::apply_tx;
