use std::collections::BTreeMap;

use novadb::error::NovaError;
use novadb::page::{Page, PageId, SlotId};
use novadb::wal::{decode_records, redo_plan, LogRecord, Operation, WriteAheadLog, WAL_CHECKSUM_OFFSET};

fn page(id: u64, value: &[u8]) -> Page {
    let mut page = Page::new(PageId::new(id));
    page.insert(value).unwrap();
    page
}

/// Appends one record to the in-memory log file, as the log's writer does.
fn append(wal: &mut WriteAheadLog, file: &mut Vec<u8>, transaction_id: u64, operation: Operation) -> u64 {
    let (record, bytes) = wal.prepare(transaction_id, operation).unwrap();
    file.extend_from_slice(&bytes);
    wal.record_written(record).unwrap()
}

fn page_write(page: &Page) -> Operation {
    Operation::PageWrite { page_id: page.id(), page: Box::new(page.clone()) }
}

/// Replays a plan into an in-memory page store, returning how many pages it wrote.
fn replay(records: &[LogRecord], plan: &[usize], store: &mut BTreeMap<u64, Page>) -> usize {
    for index in plan {
        if let Operation::PageWrite { page_id, page } = &records[*index].operation {
            store.insert(page_id.get(), (**page).clone());
        }
    }
    plan.len()
}

#[test]
fn append_flush_and_reopen_preserve_records_and_lsns() {
    let mut file = Vec::new();
    let (mut wal, valid) = WriteAheadLog::open_bytes("test.wal".to_owned(), &file).unwrap();
    assert_eq!(valid, 0);
    assert_eq!(append(&mut wal, &mut file, 7, Operation::Begin), 0);
    assert_eq!(append(&mut wal, &mut file, 7, page_write(&page(0, b"one"))), 1);
    assert_eq!(append(&mut wal, &mut file, 7, Operation::Commit), 2);
    assert_eq!(wal.durable_lsn(), None);
    wal.mark_flushed();
    assert_eq!(wal.durable_lsn(), Some(2));
    let (reopened, valid) = WriteAheadLog::open_bytes("test.wal".to_owned(), &file).unwrap();
    assert_eq!(valid, file.len());
    assert_eq!(reopened.records().len(), 3);
    assert!(matches!(reopened.records()[1].operation, Operation::PageWrite { .. }));
}

#[test]
fn recovery_replays_only_committed_transactions_and_is_idempotent() {
    let mut file = Vec::new();
    let (mut wal, _) = WriteAheadLog::open_bytes("test.wal".to_owned(), &file).unwrap();
    append(&mut wal, &mut file, 1, Operation::Begin);
    append(&mut wal, &mut file, 1, page_write(&page(0, b"committed")));
    append(&mut wal, &mut file, 1, Operation::Commit);
    append(&mut wal, &mut file, 2, Operation::Begin);
    append(&mut wal, &mut file, 2, page_write(&page(1, b"uncommitted")));
    wal.mark_flushed();
    let (records, _) = decode_records(&file, true).unwrap();
    let plan = redo_plan(&records);
    let mut store = BTreeMap::new();
    assert_eq!(replay(&records, &plan, &mut store), 1);
    assert_eq!(replay(&records, &plan, &mut store), 1);
    assert_eq!(store.len(), 1);
    assert_eq!(store[&0].get(SlotId::new(0)), Some(b"committed".as_slice()));
}

#[test]
fn torn_tail_is_truncated_but_complete_corruption_is_rejected() {
    let mut file = Vec::new();
    let (mut wal, _) = WriteAheadLog::open_bytes("test.wal".to_owned(), &file).unwrap();
    append(&mut wal, &mut file, 1, Operation::Begin);
    append(&mut wal, &mut file, 1, Operation::Commit);
    wal.mark_flushed();
    let valid = file.clone();
    let (reopened, length) = WriteAheadLog::open_bytes("test.wal".to_owned(), &valid[..valid.len() - 3]).unwrap();
    assert_eq!(reopened.records().len(), 1);
    assert_eq!(length, 36);
    let mut corrupt = valid;
    corrupt[WAL_CHECKSUM_OFFSET] ^= 1;
    assert!(matches!(
        WriteAheadLog::open_bytes("test.wal".to_owned(), &corrupt),
        Err(NovaError::Corruption(_))
    ));
}

#[test]
fn aborted_transactions_are_not_replayed_and_strict_decoding_rejects_torn_tails() {
    let mut file = Vec::new();
    let (mut wal, _) = WriteAheadLog::open_bytes("test.wal".to_owned(), &file).unwrap();
    append(&mut wal, &mut file, 3, page_write(&page(4, b"x")));
    append(&mut wal, &mut file, 3, Operation::Commit);
    append(&mut wal, &mut file, 3, Operation::Abort);
    append(&mut wal, &mut file, 0, Operation::Checkpoint);
    let (records, _) = decode_records(&file, false).unwrap();
    assert!(redo_plan(&records).is_empty());
    assert!(decode_records(&file[..file.len() - 1], false).is_err());
    let mismatched = Operation::PageWrite { page_id: PageId::new(9), page: Box::new(page(4, b"y")) };
    assert!(matches!(wal.prepare(5, mismatched), Err(NovaError::InvalidArgument(_))));
}
