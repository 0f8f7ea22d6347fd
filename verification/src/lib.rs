//! A storage-engine-agnostic key-value library: capability traits for CRUD,
//! transactional, and versioned access to interchangeable backing stores,
//! with an in-memory reference store, an overlay store that emulates
//! transactions and soft table deletion over it, and a durable backend.

mod actor;
mod backup;
mod error;
pub mod in_memory;
mod kvdb;
mod laws;
mod listing;
mod overlay;
pub mod redb;
mod smap;
mod strutil;
mod transactional;
mod versioned;

pub use actor::StoreActor;
pub use actor::StoreCommand;
pub use actor::StoreResponse;
pub use backup::RunBackupEvent;
pub use error::KvError;
pub use kvdb::KeyValueDB;
pub use kvdb::TablesView;
pub use kvdb::cleared_all;
pub use kvdb::lemma_prefix_filter_pairs;
pub use kvdb::prefix_filter;
pub use kvdb::table_at;
pub use kvdb::table_cleared;
pub use kvdb::tbl_get;
pub use kvdb::tbl_insert;
pub use kvdb::tbl_remove;
pub use kvdb::values_match;
pub use laws::lemma_read_your_own_write;
pub use laws::lemma_soft_delete_resurrection;
pub use listing::filter_pairs_by_prefix;
pub use listing::names_contain;
pub use listing::project_keys;
pub use listing::project_values;
pub use overlay::OverlayDB;
pub use overlay::ReadTransaction;
pub use overlay::WriteTransaction;
pub use overlay::decode_u32_be;
pub use overlay::encode_u32_be;
pub use overlay::is_reserved;
pub use overlay::lemma_commit_publishes_the_view;
pub use overlay::lemma_visible_excludes_reserved;
pub use overlay::lemma_u32_be_roundtrip;
pub use overlay::meta_deleted_name;
pub use overlay::meta_versions_name;
pub use overlay::reserved_name;
pub use overlay::u32_be_bytes;
pub use overlay::u32_of_be;
pub use smap::StrMap;
pub use smap::bytes_clone;
pub use smap::names_match;
pub use smap::pairs_match;
pub use transactional::KVReadTransaction;
pub use transactional::KVWriteTransaction;
pub use transactional::TransactionalKVDB;
pub use transactional::apply_delta;
pub use transactional::apply_tx;
pub use versioned::VersionedKeyValueDB;
pub use versioned::VersionedObject;
pub use versioned::corrupt_at;
pub use versioned::decode;
pub use versioned::encode;
pub use versioned::lemma_codec_roundtrip;
pub use versioned::lemma_update_bumps_version;
pub use versioned::spec_decode;
pub use versioned::spec_encode;
pub use versioned::stored_object;
pub use versioned::table_decodable;
pub use versioned::transactional::KVReadVersionedTransaction;
pub use versioned::transactional::KVWriteVersionedTransaction;
pub use versioned::transactional::VersionedTransactionalKVDB;
pub use versioned::vpairs_decode_match;
