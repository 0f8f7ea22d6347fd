use vstd::prelude::*;

verus! {

/// An event describing a mutation that committed, published to at most one
/// registered listener per store. `Insert` carries the table's version after
/// the mutation; `Delete` carries the version being tombstoned.
#[derive(Debug, Clone, PartialEq, Eq)]
pub enum RunBackupEvent {
    Insert { table_name: String, version: u32 },
    Delete { table_name: String, version: u32 },
}

#[verifier::external_type_specification]
#[verifier::external_body]
#[verifier::reject_recursive_types(T)]
pub struct ExUnboundedSender<T>(futures::channel::mpsc::UnboundedSender<T>);

/// Relies on futures' `UnboundedSender::unbounded_send`: the send is
/// non-blocking and returns whether the message was accepted; it is refused
/// when the receiving end is gone. Nothing is promised of the outcome, so a
/// mutation never depends on the listener being alive.
#[verifier::external_body]
pub(crate) fn send_event(
    s: &futures::channel::mpsc::UnboundedSender<RunBackupEvent>,
    e: RunBackupEvent,
) -> bool {
    s.unbounded_send(e).is_ok()
}

} // verus!
