use vstd::prelude::*;

use crate::kvdb::{TablesView, table_at, tbl_get, tbl_insert};

verus! {

/// Read-your-own-writes: a store or transaction state into which `v` was
/// just written under `(t, k)` reads `v` back under `(t, k)`, and reads of
/// every other cell are what they were before. Together with the write
/// contracts (a write transaction's `insert` makes its `visible()` state
/// exactly this insertion, while a read transaction's state is a snapshot no
/// write can reach), this is the visibility half of the transaction
/// protocol: the writer sees its own uncommitted write at once, a reader
/// opened before still sees the old value.
pub proof fn lemma_read_your_own_write(m: TablesView, t: Seq<char>, k: Seq<char>, v: Seq<u8>)
    ensures
        tbl_get(tbl_insert(m, t, k, v), t, k) == Some(v),
        forall|t2: Seq<char>, k2: Seq<char>|
            (t2, k2) != (t, k) ==> tbl_get(tbl_insert(m, t, k, v), t2, k2) == tbl_get(m, t2, k2),
{
    assert forall|t2: Seq<char>, k2: Seq<char>| (t2, k2) != (t, k) implies tbl_get(
        tbl_insert(m, t, k, v),
        t2,
        k2,
    ) == tbl_get(m, t2, k2) by {
        if t2 == t {
            assert(table_at(m, t).insert(k, v).contains_key(k2) == table_at(m, t).contains_key(
                k2,
            ));
        }
    }
}

/// Soft-delete resurrection: writing `(k, v)` into a table that was just
/// deleted makes the table exist again holding exactly that one entry, and
/// never any entry from before the deletion. The store's `delete_table`
/// contract makes its state `model().remove(t)` and its `insert` contract
/// makes the next state this insertion, so the lemma describes the state
/// after the two calls.
pub proof fn lemma_soft_delete_resurrection(m: TablesView, t: Seq<char>, k: Seq<char>, v: Seq<u8>)
    ensures
        tbl_insert(m.remove(t), t, k, v).contains_key(t),
        table_at(tbl_insert(m.remove(t), t, k, v), t) == Map::<Seq<char>, Seq<u8>>::empty().insert(
            k,
            v,
        ),
        forall|k2: Seq<char>|
            k2 != k ==> tbl_get(tbl_insert(m.remove(t), t, k, v), t, k2) is None,
{
    let m2 = tbl_insert(m.remove(t), t, k, v);
    assert(table_at(m.remove(t), t) =~= Map::<Seq<char>, Seq<u8>>::empty());
    assert(table_at(m2, t) =~= Map::<Seq<char>, Seq<u8>>::empty().insert(k, v));
}

} // verus!
