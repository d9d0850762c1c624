//! Atomic batches: writes and deletes queued and then applied together.

use crate::aof::{command_views, delete_command, recorded_expiry, write_command, AOFCommand, CommandView};
use crate::buffer::{bytes_copy, bytes_slice, bytes_view};
use crate::error::SpatioError;
use crate::store::{after_write, apply_commands, kept_exactly, lemma_recorded_write_restores, write_expiry, Store};
use crate::types::{DbStats, ItemView, SetOptions};
use bytes::Bytes;
use vstd::prelude::*;

verus! {

/// One queued operation of a batch.
#[derive(Debug)]
pub enum BatchOperation {
    Insert { key: Bytes, value: Bytes, opts: Option<SetOptions> },
    Delete { key: Bytes },
}

/// A queued operation, with its buffers taken by their bytes.
pub enum BatchOpView {
    Insert { key: Seq<u8>, value: Seq<u8>, opts: Option<SetOptions> },
    Delete { key: Seq<u8> },
}

impl View for BatchOperation {
    type V = BatchOpView;

    open spec fn view(&self) -> BatchOpView {
        match self {
            BatchOperation::Insert { key, value, opts } => BatchOpView::Insert {
                key: bytes_view(*key),
                value: bytes_view(*value),
                opts: *opts,
            },
            BatchOperation::Delete { key } => BatchOpView::Delete { key: bytes_view(*key) },
        }
    }
}

/// The key space after one operation, applied with the clock reading `now`.
pub open spec fn apply_op(m: Map<Seq<u8>, ItemView>, op: BatchOpView, now: u128) -> Map<Seq<u8>, ItemView> {
    match op {
        BatchOpView::Insert { key, value, opts } => after_write(m, key, value, opts, now),
        BatchOpView::Delete { key } => m.remove(key),
    }
}

/// The key space after operations applied in order, with the clock reading `now`.
pub open spec fn apply_ops(m: Map<Seq<u8>, ItemView>, ops: Seq<BatchOpView>, now: u128) -> Map<Seq<u8>, ItemView>
    decreases ops.len(),
{
    if ops.len() == 0 {
        m
    } else {
        apply_op(apply_ops(m, ops.drop_last(), now), ops.last(), now)
    }
}

/// The record that the append-only file keeps of an operation made with
/// the clock reading `now`.
pub open spec fn recorded_op(op: BatchOpView, now: u128) -> CommandView {
    match op {
        BatchOpView::Insert { key, value, opts } => CommandView::SetItem {
            key,
            value,
            expires_at: recorded_expiry(write_expiry(opts, now)),
        },
        BatchOpView::Delete { key } => CommandView::Delete { key },
    }
}

/// The operation is restored exactly by its record: a write expires, if at
/// all, at a whole second.
pub open spec fn recorded_exactly(op: BatchOpView, now: u128) -> bool {
    match op {
        BatchOpView::Insert { opts, .. } => kept_exactly(write_expiry(opts, now)),
        BatchOpView::Delete { .. } => true,
    }
}

/// Replaying the records of a batch gives the key space that committing
/// the batch gives, where every operation is restored exactly by its record.
pub proof fn lemma_batch_log_replays_commit(m: Map<Seq<u8>, ItemView>, ops: Seq<BatchOpView>, now: u128)
    requires
        forall|i: int| 0 <= i < ops.len() ==> recorded_exactly(#[trigger] ops[i], now),
    ensures
        apply_commands(m, ops.map_values(|o: BatchOpView| recorded_op(o, now))) == apply_ops(m, ops, now),
    decreases ops.len(),
{
    if ops.len() > 0 {
        let rest = ops.drop_last();
        assert forall|i: int| 0 <= i < rest.len() implies recorded_exactly(#[trigger] rest[i], now) by {
            assert(rest[i] == ops[i]);
        }
        lemma_batch_log_replays_commit(m, rest, now);
        let cs = ops.map_values(|o: BatchOpView| recorded_op(o, now));
        assert(cs.drop_last() =~= rest.map_values(|o: BatchOpView| recorded_op(o, now)));
        assert(recorded_exactly(ops[ops.len() - 1], now));
        let r = apply_ops(m, rest, now);
        match ops.last() {
            BatchOpView::Insert { key, value, opts } => {
                lemma_recorded_write_restores(r, key, value, opts, now);
            },
            BatchOpView::Delete { key } => {},
        }
    }
}

/// Operations grouped to be applied together, in the order they were added.
pub struct AtomicBatch {
    operations: Vec<BatchOperation>,
}

impl AtomicBatch {
    /// The queued operations, in order.
    pub closed spec fn ops(&self) -> Seq<BatchOpView> {
        self.operations@.map_values(|o: BatchOperation| o@)
    }

    /// An empty batch.
    pub fn new() -> (b: Self)
        ensures
            b.ops() == Seq::<BatchOpView>::empty(),
    {
        let b = AtomicBatch { operations: Vec::new() };
        assert(b.ops() =~= Seq::<BatchOpView>::empty());
        b
    }

    /// Number of queued operations.
    pub fn len(&self) -> (n: usize)
        ensures
            n == self.ops().len(),
    {
        self.operations.len()
    }

    /// Queues a write of `value` under `key`.
    pub fn insert(&mut self, key: &[u8], value: &[u8], opts: Option<SetOptions>) -> (r: Result<(), SpatioError>)
        ensures
            r is Ok,
            final(self).ops() == old(self).ops().push(BatchOpView::Insert { key: key@, value: value@, opts }),
    {
        let op = BatchOperation::Insert { key: bytes_copy(key), value: bytes_copy(value), opts };
        self.operations.push(op);
        assert(self.ops() =~= old(self).ops().push(BatchOpView::Insert { key: key@, value: value@, opts }));
        Ok(())
    }

    /// Queues a delete of `key`.
    pub fn delete(&mut self, key: &[u8]) -> (r: Result<(), SpatioError>)
        ensures
            r is Ok,
            final(self).ops() == old(self).ops().push(BatchOpView::Delete { key: key@ }),
    {
        let op = BatchOperation::Delete { key: bytes_copy(key) };
        self.operations.push(op);
        assert(self.ops() =~= old(self).ops().push(BatchOpView::Delete { key: key@ }));
        Ok(())
    }

    /// Applies every queued operation to `store`, in order, with the clock
    /// reading `now`.
    pub fn commit(&self, store: &mut Store, now: u128) -> (r: Result<(), SpatioError>)
        requires
            old(store).wf(),
        ensures
            r is Ok,
            final(store).wf(),
            final(store)@ == apply_ops(old(store)@, self.ops(), now),
            final(store).stats_view() == (DbStats {
                key_count: final(store).stats_view().key_count,
                ..old(store).stats_view()
            }),
    {
        let mut i: usize = 0;
        while i < self.operations.len()
            invariant
                store.wf(),
                i <= self.ops().len(),
                self.ops().len() == self.operations@.len(),
                store@ == apply_ops(old(store)@, self.ops().take(i as int), now),
                store.stats_view() == (DbStats {
                    key_count: store.stats_view().key_count,
                    ..old(store).stats_view()
                }),
            decreases self.operations@.len() - i,
        {
            assert(self.ops().take(i + 1).drop_last() =~= self.ops().take(i as int));
            assert(self.ops()[i as int] == self.operations@[i as int]@);
            match &self.operations[i] {
                BatchOperation::Insert { key, value, opts } => {
                    store.insert(bytes_slice(key), bytes_slice(value), *opts, now);
                },
                BatchOperation::Delete { key } => {
                    store.delete(bytes_slice(key));
                },
            }
            i = i + 1;
        }
        assert(self.ops().take(self.ops().len() as int) =~= self.ops());
        Ok(())
    }

    /// Finishes an atomic operation: where the work that queued the
    /// operations succeeded, they are all applied to `store` in order with
    /// the clock reading `now`; where it failed, none is and `store` is left
    /// as it was. The outcome is handed back either way.
    pub fn commit_if_ok<R, E>(&self, outcome: Result<R, E>, store: &mut Store, now: u128) -> (r: Result<R, E>)
        requires
            old(store).wf(),
        ensures
            r == outcome,
            final(store).wf(),
            final(store)@ == (if outcome is Ok {
                apply_ops(old(store)@, self.ops(), now)
            } else {
                old(store)@
            }),
            final(store).stats_view() == (DbStats {
                key_count: final(store).stats_view().key_count,
                ..old(store).stats_view()
            }),
            outcome is Err ==> final(store).stats_view() == old(store).stats_view(),
    {
        match outcome {
            Ok(x) => {
                let _ = self.commit(store, now);
                Ok(x)
            },
            Err(e) => Err(e),
        }
    }

    /// The records that the append-only file keeps of the queued operations,
    /// committed with the clock reading `now`, in order.
    pub fn log_commands(&self, now: u128) -> (cs: Vec<AOFCommand>)
        ensures
            command_views(cs@) == self.ops().map_values(|o: BatchOpView| recorded_op(o, now)),
    {
        let mut cs: Vec<AOFCommand> = Vec::new();
        let mut i: usize = 0;
        while i < self.operations.len()
            invariant
                i <= self.operations@.len(),
                self.ops().len() == self.operations@.len(),
                command_views(cs@) == self.ops().take(i as int).map_values(|o: BatchOpView| recorded_op(o, now)),
            decreases self.operations@.len() - i,
        {
            assert(self.ops()[i as int] == self.operations@[i as int]@);
            let c = match &self.operations[i] {
                BatchOperation::Insert { key, value, opts } => {
                    match opts {
                        Some(o) => write_command(bytes_slice(key), bytes_slice(value), Some(o), now),
                        None => write_command(bytes_slice(key), bytes_slice(value), None, now),
                    }
                },
                BatchOperation::Delete { key } => delete_command(bytes_slice(key)),
            };
            let ghost before = command_views(cs@);
            cs.push(c);
            assert(command_views(cs@) =~= before.push(c@));
            assert(self.ops().take(i + 1).map_values(|o: BatchOpView| recorded_op(o, now)) =~= self.ops().take(
                i as int,
            ).map_values(|o: BatchOpView| recorded_op(o, now)).push(recorded_op(self.ops()[i as int], now)));
            i = i + 1;
        }
        assert(self.ops().take(self.ops().len() as int) =~= self.ops());
        cs
    }
}

} // verus!
