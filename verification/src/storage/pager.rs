//! The files of the engine: the index, the heap and the log.

use super::buffer_pool;
use super::bytes;
use super::error::StorageError;
use super::file::{PageFile, MAX_PAGES};
use super::header;
use super::heap;
use super::heap::{Heap, HEAP_POOL_CAPACITY};
use super::index::Index;
use super::paging;
use super::paging::FileState;
use super::recovery;
use super::slotted_page;
use super::slotted_page::{Cell, HeapPage, Page};
use super::wal;
use super::wal::{DirtyPageEntry, LogView, RecordType, TxnEntry, UpdatePayload, Wal};
use vstd::prelude::*;

verus! {

/// What recovery has done.
pub struct RecoveryReport {
    pub checkpoint_lsn: u64,
    pub redone_records: usize,
    pub undone_records: usize,
    /// The transactions that were rolled back, in increasing order.
    pub active_txns: Vec<u64>,
}

/// The index file, the heap file and the log.
pub struct Pager {
    pub index: Index,
    pub heap: Heap,
    pub wal: Wal,
}

/// The bytes that changed between two versions of a page: everything before
/// `start` and from `end` on is the same.
pub open spec fn differs_within(old: Seq<u8>, new: Seq<u8>, start: int, end: int) -> bool {
    &&& 0 <= start < end <= old.len()
    &&& old[start] != new[start]
    &&& old[end - 1] != new[end - 1]
    &&& forall|i: int| 0 <= i < start ==> #[trigger] old[i] == new[i]
    &&& forall|i: int| end <= i < old.len() ==> #[trigger] old[i] == new[i]
}

/// Writing the new bytes over the old page gives the new page, and writing the
/// old bytes over the new page gives the old one.
pub proof fn lemma_diff(old: Seq<u8>, new: Seq<u8>, start: int, end: int)
    requires
        old.len() == new.len(),
        differs_within(old, new, start, end),
    ensures
        bytes::written(old, start, new.subrange(start, end)) == new,
        bytes::written(new, start, old.subrange(start, end)) == old,
{
    assert(bytes::written(old, start, new.subrange(start, end)) =~= new);
    assert(bytes::written(new, start, old.subrange(start, end)) =~= old);
}

/// The entries that a checkpoint makes of dirty pages.
pub open spec fn dirty_entries(is_index: bool, dpt: Seq<(u64, u64)>) -> Seq<DirtyPageEntry> {
    Seq::new(
        dpt.len(),
        |i: int| DirtyPageEntry { is_index, page_id: dpt[i].0, rec_lsn: dpt[i].1 },
    )
}

/// The ids of pairs.
pub open spec fn ids_of(dpt: Seq<(u64, u64)>) -> Seq<u64> {
    Seq::new(dpt.len(), |i: int| dpt[i].0)
}

impl Pager {
    /// The invariant of the three files.
    pub open spec fn wf(self) -> bool {
        &&& self.index.wf()
        &&& self.heap.wf()
        &&& self.wal.wf()
        &&& self.heap.capacity() == HEAP_POOL_CAPACITY
    }

    /// Opens the three files.
    pub fn new(
        index_file: PageFile<Page>,
        heap_file: PageFile<HeapPage>,
        log_file: Vec<u8>,
    ) -> (r: Result<Pager, StorageError>)
        requires
            index_file@.len() <= MAX_PAGES,
            heap_file@.len() <= MAX_PAGES,
        ensures
            r is Ok == (log_file@.len() == 0 || log_file@.len() >= header::WAL_HEADER_SIZE),
            r matches Ok(pager) ==> {
                &&& pager.wf()
                &&& pager.index@ == index_file@
                &&& pager.index.stored() == index_file@
                &&& pager.heap@ == heap_file@
                &&& pager.heap.stored() == heap_file@
                &&& pager.wal@ == wal::opened(log_file@)
                &&& pager.wal.file() == wal::opened_file(log_file@)
            },
            r matches Err(e) ==> e == StorageError::WalTruncated,
    {
        let wal = match Wal::new(log_file) {
            Ok(wal) => wal,
            Err(e) => return Err(e),
        };
        Ok(Pager { index: Index::new(index_file), heap: Heap::new(heap_file), wal })
    }

    /// Appends the records that a leaf cell points at to `data_record`.
    pub fn fetch_heap_data(&mut self, cell: &Cell, data_record: &mut Vec<Vec<u8>>) -> (r: Result<
        (),
        StorageError,
    >)
        requires
            old(self).wf(),
            cell.h_ptr matches Some(h) ==> heap::ends(old(self).heap@, h.index) && heap::sound(
                old(self).heap@,
                h.index,
            ),
        ensures
            final(self).wf(),
            final(self).index == old(self).index,
            final(self).heap@ == old(self).heap@,
            final(self).wal@.flushes(old(self).wal@),
            match cell.h_ptr {
                Some(h) => if h.index >= old(self).heap@.len() {
                    &&& r matches Err(e)
                    &&& e == StorageError::ShortRead
                    &&& final(data_record)@ == old(data_record)@
                } else {
                    &&& slotted_page::contents(final(data_record)@) == slotted_page::contents(
                        old(data_record)@,
                    ) + heap::records_of(old(self).heap@, h.index)
                    &&& r is Ok == heap::complete(old(self).heap@, h.index)
                    &&& r matches Err(e) ==> e == StorageError::ShortRead
                },
                None => {
                    &&& r matches Err(e)
                    &&& e == StorageError::NoHeapPointer
                    &&& final(data_record)@ == old(data_record)@
                },
            },
    {
        match cell.h_ptr {
            Some(h) => self.heap.get_record(&mut self.wal, h.index, data_record),
            None => Err(StorageError::NoHeapPointer),
        }
    }

    /// Writes the log and then all dirty pages to the files.
    pub fn flush_all(&mut self)
        requires
            old(self).wf(),
        ensures
            final(self).wf(),
            final(self).index@ == old(self).index@,
            final(self).heap@ == old(self).heap@,
            final(self).index.stored() == old(self).index@,
            final(self).heap.stored() == old(self).heap@,
            final(self).index.dirty() == Set::<u64>::empty(),
            final(self).heap.dirty() == Set::<u64>::empty(),
            final(self).wal@.flushes(old(self).wal@),
            final(self).wal@.flushed >= old(self).wal@.header.next_lsn,
            exists|ids: Seq<u64>, heap_ids: Seq<u64>| #[trigger]
                flushed_in_order(*old(self), *final(self), ids, heap_ids),
    {
        self.wal.flush_all();
        assert(self.wal@.all() =~= old(self).wal@.all());
        let ghost log = self.wal@;
        self.index.flush_all(&mut self.wal);
        let ghost ids = choose|ids: Seq<u64>|
            #[trigger] paging::lists(ids, old(self).index.dirty()) && self.index.state(self.wal)
                == (FileState { log, ..old(self).index.state(old(self).wal) }).flush_all(ids);
        let ghost mid = self.wal@;
        self.heap.flush_all(&mut self.wal);
        proof {
            let heap_ids = choose|ids: Seq<u64>|
                #[trigger] paging::lists(ids, old(self).heap.dirty()) && self.heap.state(self.wal)
                    == (FileState { log: mid, ..old(self).heap.state(old(self).wal) }).flush_all(
                    ids,
                );
            assert(flushed_in_order(*old(self), *self, ids, heap_ids));
        }
    }

    /// Writes an index page to the file, once the log is on disk up to its LSN.
    pub fn flush_index_page(&mut self, id: u64)
        requires
            old(self).wf(),
        ensures
            final(self).wf(),
            final(self).heap == old(self).heap,
            final(self).index@ == old(self).index@,
            final(self).index.stored() == (if id < old(self).index@.len() {
                old(self).index.stored().update(id as int, old(self).index@[id as int])
            } else {
                old(self).index.stored()
            }),
            final(self).wal@.flushes(old(self).wal@),
            final(self).wal@.covers(old(self).index.lsn_of(id)),
            ({
                let s = old(self).index.state(old(self).wal);
                final(self).index.state(final(self).wal) == (FileState {
                    log: s.log.flush(old(self).index.lsn_of(id)),
                    ..s
                }).flush(id)
            }),
    {
        let lsn: u64 = self.index.page_lsn(id);
        self.wal.flush_up_to(lsn);
        self.index.flush(&mut self.wal, id);
    }

    /// Writes a heap page to the file, once the log is on disk up to its LSN.
    pub fn flush_heap_page(&mut self, id: u64)
        requires
            old(self).wf(),
        ensures
            final(self).wf(),
            final(self).index == old(self).index,
            final(self).heap@ == old(self).heap@,
            final(self).heap.stored() == (if id < old(self).heap@.len() {
                old(self).heap.stored().update(id as int, old(self).heap@[id as int])
            } else {
                old(self).heap.stored()
            }),
            final(self).wal@.flushes(old(self).wal@),
            final(self).wal@.covers(old(self).heap.lsn_of(id)),
            ({
                let s = old(self).heap.state(old(self).wal);
                final(self).heap.state(final(self).wal) == (FileState {
                    log: s.log.flush(old(self).heap.lsn_of(id)),
                    ..s
                }).flush(id)
            }),
    {
        let lsn: u64 = self.heap.page_lsn(id);
        self.wal.flush_up_to(lsn);
        self.heap.flush(&mut self.wal, id);
    }

    /// Forgets all changes that are not in the files.
    pub fn discard_all_dirty(&mut self)
        requires
            old(self).wf(),
        ensures
            final(self).wf(),
            final(self).wal == old(self).wal,
            final(self).index@ == old(self).index.stored(),
            final(self).heap@ == old(self).heap.stored(),
            final(self).index.stored() == old(self).index.stored(),
            final(self).heap.stored() == old(self).heap.stored(),
            final(self).index.dirty() == Set::<u64>::empty(),
            final(self).heap.dirty() == Set::<u64>::empty(),
            final(self).index.written() == old(self).index.written(),
            final(self).heap.written() == old(self).heap.written(),
            exists|ids: Seq<u64>|
                #[trigger] paging::lists(ids, old(self).index.dirty())
                    && final(self).index.pool_view() == paging::drop_each(
                    old(self).index.pool_view(),
                    ids,
                ),
            exists|ids: Seq<u64>|
                #[trigger] paging::lists(ids, old(self).heap.dirty())
                    && final(self).heap.pool_view() == paging::drop_each(
                    old(self).heap.pool_view(),
                    ids,
                ),
    {
        self.index.discard_dirty();
        self.heap.discard_dirty();
    }

    /// The ids of the dirty index pages and of the dirty heap pages.
    pub fn dirty_pages(&self) -> (r: (Vec<u64>, Vec<u64>))
        ensures
            r.0@.no_duplicates() && r.0@.to_set() == self.index.dirty(),
            r.1@.no_duplicates() && r.1@.to_set() == self.heap.dirty(),
    {
        (self.index.dirty_page_ids(), self.heap.dirty_page_ids())
    }

    /// Logs a change of an index page.
    pub fn log_index_update(
        &mut self,
        txn_id: u64,
        page_id: u64,
        offset: u16,
        undo: &[u8],
        redo: &[u8],
    ) -> (r: Result<u64, StorageError>)
        requires
            old(self).wf(),
            old(self).wal@.has_room(4 + undo@.len() + redo@.len()),
        ensures
            final(self).wf(),
            final(self).heap == old(self).heap,
            final(self).index@ == old(self).index@,
            r == Ok::<u64, StorageError>(old(self).wal@.header.next_lsn),
            final(self).wal@ == old(self).wal@.push(
                wal::next_record(
                    old(self).wal@,
                    txn_id,
                    RecordType::Update,
                    page_id,
                    true,
                    offset,
                    wal::sized(undo@) + wal::sized(redo@),
                ),
            ),
            final(self).index.stored() == old(self).index.stored(),
            final(self).index.written() == old(self).index.written(),
            final(self).index.pool_view() == old(self).index.pool_view().update_lsn(
                page_id,
                old(self).wal@.header.next_lsn,
            ),
    {
        let payload = UpdatePayload { offset_in_page: offset, undo_data: undo, redo_data: redo };
        let lsn: u64 = match self.wal.write_record(
            txn_id,
            RecordType::Update,
            page_id,
            true,
            payload,
        ) {
            Ok(lsn) => lsn,
            Err(e) => return Err(e),
        };
        self.index.update_lsn(page_id, lsn);
        Ok(lsn)
    }

    /// Logs a change of a heap page.
    pub fn log_heap_update(
        &mut self,
        txn_id: u64,
        page_id: u64,
        offset: u16,
        undo: &[u8],
        redo: &[u8],
    ) -> (r: Result<u64, StorageError>)
        requires
            old(self).wf(),
            old(self).wal@.has_room(4 + undo@.len() + redo@.len()),
        ensures
            final(self).wf(),
            final(self).index == old(self).index,
            final(self).heap@ == old(self).heap@,
            r == Ok::<u64, StorageError>(old(self).wal@.header.next_lsn),
            final(self).wal@ == old(self).wal@.push(
                wal::next_record(
                    old(self).wal@,
                    txn_id,
                    RecordType::Update,
                    page_id,
                    false,
                    offset,
                    wal::sized(undo@) + wal::sized(redo@),
                ),
            ),
            final(self).heap.stored() == old(self).heap.stored(),
            final(self).heap.written() == old(self).heap.written(),
            final(self).heap.pool_view() == old(self).heap.pool_view().update_lsn(
                page_id,
                old(self).wal@.header.next_lsn,
            ),
    {
        let payload = UpdatePayload { offset_in_page: offset, undo_data: undo, redo_data: redo };
        let lsn: u64 = match self.wal.write_record(
            txn_id,
            RecordType::Update,
            page_id,
            false,
            payload,
        ) {
            Ok(lsn) => lsn,
            Err(e) => return Err(e),
        };
        self.heap.update_lsn(page_id, lsn);
        Ok(lsn)
    }

    /// Logs what differs between two versions of an index page, if anything
    /// does.
    pub fn log_index_diff(
        &mut self,
        txn_id: u64,
        page_id: u64,
        old_data: &[u8],
        new_data: &[u8],
    ) -> (r: Result<Option<u64>, StorageError>)
        requires
            old(self).wf(),
            old_data@.len() <= new_data@.len(),
            old(self).wal@.has_room(4 + 2 * old_data@.len()),
        ensures
            final(self).wf(),
            final(self).heap == old(self).heap,
            final(self).index@ == old(self).index@,
            diff_logged(
                old(self).wal@,
                final(self).wal@,
                txn_id,
                page_id,
                true,
                old_data@,
                new_data@,
                r,
            ),
            final(self).index.stored() == old(self).index.stored(),
            final(self).index.written() == old(self).index.written(),
            final(self).index.pool_view() == (match r {
                Ok(Some(lsn)) => old(self).index.pool_view().update_lsn(page_id, lsn),
                _ => old(self).index.pool_view(),
            }),
    {
        match Self::page_diff(old_data, new_data) {
            Some((offset, start, end)) => {
                let ghost undo = old_data@.subrange(start as int, end as int);
                let ghost redo = new_data@.subrange(start as int, end as int);
                match self.log_index_update(
                    txn_id,
                    page_id,
                    offset,
                    &old_data[start..end],
                    &new_data[start..end],
                ) {
                    Ok(lsn) => {
                        assert(logged_between(
                            old(self).wal@,
                            self.wal@,
                            txn_id,
                            page_id,
                            true,
                            old_data@,
                            new_data@,
                            start as int,
                            end as int,
                        ));
                        Ok(Some(lsn))
                    },
                    Err(e) => Err(e),
                }
            },
            None => Ok(None),
        }
    }

    /// Logs what differs between two versions of a heap page, if anything does.
    pub fn log_heap_diff(
        &mut self,
        txn_id: u64,
        page_id: u64,
        old_data: &[u8],
        new_data: &[u8],
    ) -> (r: Result<Option<u64>, StorageError>)
        requires
            old(self).wf(),
            old_data@.len() <= new_data@.len(),
            old(self).wal@.has_room(4 + 2 * old_data@.len()),
        ensures
            final(self).wf(),
            final(self).index == old(self).index,
            final(self).heap@ == old(self).heap@,
            diff_logged(
                old(self).wal@,
                final(self).wal@,
                txn_id,
                page_id,
                false,
                old_data@,
                new_data@,
                r,
            ),
            final(self).heap.stored() == old(self).heap.stored(),
            final(self).heap.written() == old(self).heap.written(),
            final(self).heap.pool_view() == (match r {
                Ok(Some(lsn)) => old(self).heap.pool_view().update_lsn(page_id, lsn),
                _ => old(self).heap.pool_view(),
            }),
    {
        match Self::page_diff(old_data, new_data) {
            Some((offset, start, end)) => {
                match self.log_heap_update(
                    txn_id,
                    page_id,
                    offset,
                    &old_data[start..end],
                    &new_data[start..end],
                ) {
                    Ok(lsn) => {
                        assert(logged_between(
                            old(self).wal@,
                            self.wal@,
                            txn_id,
                            page_id,
                            false,
                            old_data@,
                            new_data@,
                            start as int,
                            end as int,
                        ));
                        Ok(Some(lsn))
                    },
                    Err(e) => Err(e),
                }
            },
            None => Ok(None),
        }
    }

    /// Where two versions of a page differ: the offset for the log, and the
    /// first differing byte and the place behind the last one.
    fn page_diff(old: &[u8], new: &[u8]) -> (r: Option<(u16, usize, usize)>)
        requires
            old@.len() <= new@.len(),
        ensures
            match r {
                Some((offset, start, end)) => {
                    &&& differs_within(old@, new@, start as int, end as int)
                    &&& offset == wal::short_len(start as nat)
                },
                None => forall|i: int| 0 <= i < old@.len() ==> #[trigger] old@[i] == new@[i],
            },
    {
        let total: usize = old.len();
        let mut start: usize = 0;
        while start < total && old[start] == new[start]
            invariant
                start <= total,
                total == old@.len(),
                total <= new@.len(),
                forall|i: int| 0 <= i < start ==> #[trigger] old@[i] == new@[i],
            decreases total - start,
        {
            start = start + 1;
        }
        if start == total {
            return None;
        }
        let mut end: usize = total;
        while old[end - 1] == new[end - 1]
            invariant
                start < end <= total,
                total == old@.len(),
                total <= new@.len(),
                old@[start as int] != new@[start as int],
                forall|i: int| end <= i < total ==> #[trigger] old@[i] == new@[i],
            decreases end,
        {
            end = end - 1;
        }
        Some(((start % 65536) as u16, start, end))
    }

    /// The transactions that have not ended according to the log.
    pub open spec fn active(self) -> Map<u64, u64> {
        recovery::analyse(
            recovery::nothing_known(),
            wal::records_in(self.wal@.durable) + wal::records_in(self.wal@.pending),
            0,
        ).att
    }

    /// The size of the record that a checkpoint writes.
    pub open spec fn checkpoint_size(self) -> nat {
        8 + wal::DPT_ENTRY_SIZE as nat * (self.index.dirty().len() + self.heap.dirty().len())
            + wal::ATT_ENTRY_SIZE as nat * self.active().dom().len()
    }

    /// Logs a checkpoint: the pages that are dirty and the transactions that
    /// are active, without stopping either.
    pub fn fuzzy_checkpoint(&mut self) -> (r: Result<u64, StorageError>)
        requires
            old(self).wf(),
            old(self).wal@.has_room(old(self).checkpoint_size()),
        ensures
            final(self).wf(),
            final(self).index == old(self).index,
            final(self).heap == old(self).heap,
            r == Ok::<u64, StorageError>(old(self).wal@.header.next_lsn),
            exists|ids: Seq<(u64, u64)>, hds: Seq<(u64, u64)>, att: Seq<TxnEntry>| #[trigger]
                checkpointed(*old(self), *final(self), ids, hds, att),
    {
        let index_dpt = self.index.dirty_page_table();
        let heap_dpt = self.heap.dirty_page_table();
        let att = recovery::active_transactions(&self.wal);
        let mut dpt: Vec<DirtyPageEntry> = Vec::new();
        push_entries(&mut dpt, true, &index_dpt);
        push_entries(&mut dpt, false, &heap_dpt);
        proof {
            assert(tables_of(*old(self), index_dpt@, heap_dpt@, att@));
            assert(dpt@ =~= dirty_entries(true, index_dpt@) + dirty_entries(false, heap_dpt@));
            ids_of(index_dpt@).unique_seq_to_set();
            ids_of(heap_dpt@).unique_seq_to_set();
            recovery::lemma_lists_len(att@, self.active());
            wal::lemma_checkpoint_read_back(dpt@, att@);
        }
        let lsn: u64 = self.wal.write_checkpoint(&dpt, &att);
        assert(checkpointed(*old(self), *self, index_dpt@, heap_dpt@, att@));
        Ok(lsn)
    }
}

/// The record of the bytes that differ was appended to the log.
pub open spec fn logged_between(
    log: LogView,
    log2: LogView,
    txn_id: u64,
    page_id: u64,
    is_index: bool,
    old: Seq<u8>,
    new: Seq<u8>,
    start: int,
    end: int,
) -> bool {
    &&& differs_within(old, new, start, end)
    &&& log2 == log.push(
        wal::next_record(
            log,
            txn_id,
            RecordType::Update,
            page_id,
            is_index,
            wal::short_len(start as nat),
            wal::sized(old.subrange(start, end)) + wal::sized(new.subrange(start, end)),
        ),
    )
}

/// What logging the difference of two versions of a page does.
pub open spec fn diff_logged(
    log: LogView,
    log2: LogView,
    txn_id: u64,
    page_id: u64,
    is_index: bool,
    old: Seq<u8>,
    new: Seq<u8>,
    r: Result<Option<u64>, StorageError>,
) -> bool {
    if forall|i: int| 0 <= i < old.len() ==> #[trigger] old[i] == new[i] {
        r == Ok::<Option<u64>, StorageError>(None) && log2 == log
    } else {
        &&& r == Ok::<Option<u64>, StorageError>(Some(log.header.next_lsn))
        &&& exists|start: int, end: int| #[trigger]
            logged_between(log, log2, txn_id, page_id, is_index, old, new, start, end)
    }
}

/// The log was written out, and then the dirty index pages and the dirty heap pages,
/// each in the given order.
pub open spec fn flushed_in_order(
    pager: Pager,
    pager2: Pager,
    ids: Seq<u64>,
    heap_ids: Seq<u64>,
) -> bool {
    let index = (FileState {
        log: pager.wal@.flush_all(),
        ..pager.index.state(pager.wal)
    }).flush_all(ids);
    let heap = (FileState { log: index.log, ..pager.heap.state(pager.wal) }).flush_all(heap_ids);
    &&& paging::lists(ids, pager.index.dirty())
    &&& paging::lists(heap_ids, pager.heap.dirty())
    &&& pager2.index.state(pager2.wal) == (FileState { log: heap.log, ..index })
    &&& pager2.heap.state(pager2.wal) == heap
}

/// The tables that describe the state at a checkpoint.
pub open spec fn tables_of(
    pager: Pager,
    index_dpt: Seq<(u64, u64)>,
    heap_dpt: Seq<(u64, u64)>,
    att: Seq<TxnEntry>,
) -> bool {
    &&& ids_of(index_dpt).no_duplicates() && ids_of(index_dpt).to_set() == pager.index.dirty()
    &&& ids_of(heap_dpt).no_duplicates() && ids_of(heap_dpt).to_set() == pager.heap.dirty()
    &&& forall|i: int|
        0 <= i < index_dpt.len() ==> (#[trigger] index_dpt[i]).1 == buffer_pool::lsn_or_zero(
            pager.index.rec_lsn_of(index_dpt[i].0),
        )
    &&& forall|i: int|
        0 <= i < heap_dpt.len() ==> (#[trigger] heap_dpt[i]).1 == buffer_pool::lsn_or_zero(
            pager.heap.rec_lsn_of(heap_dpt[i].0),
        )
    &&& recovery::lists(att, pager.active())
}

/// A checkpoint with these tables was logged.
pub open spec fn checkpointed(
    pager: Pager,
    pager2: Pager,
    index_dpt: Seq<(u64, u64)>,
    heap_dpt: Seq<(u64, u64)>,
    att: Seq<TxnEntry>,
) -> bool {
    let dpt = dirty_entries(true, index_dpt) + dirty_entries(false, heap_dpt);
    let log = pager.wal@;
    let log2 = log.push(
        wal::next_record(
            log,
            0,
            RecordType::Checkpoint,
            0,
            false,
            0,
            wal::checkpoint_bytes(dpt, att),
        ),
    );
    &&& tables_of(pager, index_dpt, heap_dpt, att)
    &&& wal::checkpoint_of(wal::checkpoint_bytes(dpt, att)) == Some((dpt, att))
    &&& pager2.wal@ == (LogView {
        header: header::WalHeader { last_checkpoint_lsn: log.header.next_lsn, ..log2.header },
        ..log2
    })
}

/// Appends the entries of dirty pages.
fn push_entries(out: &mut Vec<DirtyPageEntry>, is_index: bool, dpt: &Vec<(u64, u64)>)
    ensures
        final(out)@ == old(out)@ + dirty_entries(is_index, dpt@),
{
    let mut i: usize = 0;
    assert(out@ =~= old(out)@ + dirty_entries(is_index, dpt@).take(0));
    while i < dpt.len()
        invariant
            i <= dpt@.len(),
            out@ == old(out)@ + dirty_entries(is_index, dpt@).take(i as int),
        decreases dpt@.len() - i,
    {
        let (page_id, rec_lsn) = dpt[i];
        out.push(DirtyPageEntry { is_index, page_id, rec_lsn });
        i = i + 1;
        assert(out@ =~= old(out)@ + dirty_entries(is_index, dpt@).take(i as int));
    }
    assert(dirty_entries(is_index, dpt@).take(i as int) =~= dirty_entries(is_index, dpt@));
}

} // verus!
