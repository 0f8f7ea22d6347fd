use vstd::prelude::*;

use crate::error::KvError;
use crate::kvdb::{KeyValueDB, TablesView, tbl_insert, tbl_remove};
use crate::smap::{StrMap, bytes_clone, pairs_match};

verus! {

/// An in-memory store: the reference implementation of the base capability.
/// Every operation on it succeeds.
pub struct InMemoryDB {
    map: StrMap<StrMap<Vec<u8>>>,
}

impl InMemoryDB {
    /// Create the table empty if it does not exist; an existing table is
    /// left alone.
    pub fn ensure_table(&mut self, table_name: &str)
        ensures
            final(self).model() == (if old(self).model().contains_key(table_name@) {
                old(self).model()
            } else {
                old(self).model().insert(table_name@, Map::<Seq<char>, Seq<u8>>::empty())
            }),
    {
        if !self.map.contains_key(table_name) {
            self.map.insert(table_name, StrMap::<Vec<u8>>::new());
        }
    }

    /// A deep copy of the whole store contents.
    pub fn snapshot(&self) -> (r: StrMap<StrMap<Vec<u8>>>)
        ensures
            r@ == self.model(),
    {
        self.map.duplicate()
    }

    /// An empty store.
    pub fn new() -> (r: Self)
        ensures
            r.model() == Map::<Seq<char>, Map<Seq<char>, Seq<u8>>>::empty(),
            r.inv(),
            r.always_ok(),
    {
        InMemoryDB { map: StrMap::new() }
    }
}

impl Default for InMemoryDB {
    /// The default store is the empty one.
    fn default() -> (r: Self)
        ensures
            r.model() == Map::<Seq<char>, Map<Seq<char>, Seq<u8>>>::empty(),
            r.inv(),
            r.always_ok(),
    {
        InMemoryDB::new()
    }
}

impl KeyValueDB for InMemoryDB {
    closed spec fn model(&self) -> TablesView {
        self.map@
    }

    open spec fn inv(&self) -> bool {
        true
    }

    open spec fn always_ok(&self) -> bool {
        true
    }

    fn insert(&mut self, table_name: &str, key: &str, value: &[u8]) -> (r: Result<
        Option<Vec<u8>>,
        KvError,
    >)
        ensures
            r is Ok,
    {
        let v = vstd::slice::slice_to_vec(value);
        proof {
            assert(v.deep_view() =~= value@);
        }
        let old_v: Option<Vec<u8>>;
        match self.map.remove(table_name) {
            Some(mut tbl) => {
                old_v = tbl.insert(key, v);
                self.map.insert(table_name, tbl);
            },
            None => {
                let mut tbl = StrMap::<Vec<u8>>::new();
                tbl.insert(key, v);
                self.map.insert(table_name, tbl);
                old_v = None;
            },
        }
        proof {
            assert(self.map@ =~= tbl_insert(old(self).map@, table_name@, key@, value@));
        }
        Ok(old_v)
    }

    fn get(&self, table_name: &str, key: &str) -> (r: Result<Option<Vec<u8>>, KvError>)
        ensures
            r is Ok,
    {
        match self.map.get(table_name) {
            Some(tbl) => match tbl.get(key) {
                Some(v) => {
                    let out = bytes_clone(v);
                    proof {
                        assert(out.deep_view() =~= v.deep_view());
                    }
                    Ok(Some(out))
                },
                None => Ok(None),
            },
            None => Ok(None),
        }
    }

    fn remove(&mut self, table_name: &str, key: &str) -> (r: Result<Option<Vec<u8>>, KvError>)
        ensures
            r is Ok,
    {
        match self.map.remove(table_name) {
            Some(mut tbl) => {
                let old_v = tbl.remove(key);
                self.map.insert(table_name, tbl);
                proof {
                    assert(self.map@ =~= tbl_remove(old(self).map@, table_name@, key@));
                }
                Ok(old_v)
            },
            None => {
                proof {
                    assert(self.map@ =~= old(self).map@.remove(table_name@));
                    assert(self.map@ =~= tbl_remove(old(self).map@, table_name@, key@));
                }
                Ok(None)
            },
        }
    }

    fn iter(&self, table_name: &str) -> (r: Result<Vec<(String, Vec<u8>)>, KvError>)
        ensures
            r is Ok,
    {
        match self.map.get(table_name) {
            Some(tbl) => Ok(tbl.to_pairs()),
            None => {
                let out: Vec<(String, Vec<u8>)> = Vec::new();
                proof {
                    assert(out.deep_view() =~= Seq::<(Seq<char>, Seq<u8>)>::empty());
                    assert(pairs_match(
                        out.deep_view(),
                        Map::<Seq<char>, Seq<u8>>::empty(),
                    ));
                }
                Ok(out)
            },
        }
    }

    fn table_names(&self) -> (r: Result<Vec<String>, KvError>)
        ensures
            r is Ok,
    {
        Ok(self.map.keys())
    }

    /// Dropping a table removes it entirely: it no longer appears among the
    /// table names.
    fn delete_table(&mut self, table_name: &str) -> (r: Result<(), KvError>)
        ensures
            r is Ok,
            final(self).model() == old(self).model().remove(table_name@),
    {
        self.map.remove(table_name);
        Ok(())
    }

    /// Clearing drops every table.
    fn clear(&mut self) -> (r: Result<(), KvError>)
        ensures
            r is Ok,
            final(self).model() == Map::<Seq<char>, Map<Seq<char>, Seq<u8>>>::empty(),
    {
        self.map = StrMap::new();
        Ok(())
    }
}

} // verus!
