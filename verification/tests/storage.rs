use novadb::error::NovaError;
use novadb::nova_id::NovaId;
use novadb::page::{Page, PageId, SlotId};
use novadb::storage::{check_stored_id, page_offset, read_page, stored_record, DocumentDirectory, Location, PageFile};

fn id(n: u8) -> NovaId {
    NovaId::new(1_700_000_000_000, [n, 0, 0, 0, 0, 0, 0, n])
}

fn at(page: u64, slot: u16) -> Location {
    Location { page: PageId::new(page), slot: SlotId::new(slot) }
}

#[test]
fn page_files_hold_whole_pages_only() {
    assert_eq!(PageFile::from_length(0).unwrap().page_count(), 0);
    assert_eq!(PageFile::from_length(3 * 4096).unwrap().page_count(), 3);
    match PageFile::from_length(4097) {
        Err(NovaError::Corruption(m)) => assert_eq!(m, "page file length 4097 is not a multiple of 4096"),
        other => panic!("unexpected {other:?}"),
    }
}

#[test]
fn allocation_appends_an_empty_page_and_counts_it() {
    let mut file = PageFile::from_length(4096).unwrap();
    let (next, bytes) = file.next_page().unwrap();
    assert_eq!(next.get(), 1);
    assert_eq!(bytes.len(), 4096);
    let page = read_page(next, &bytes).unwrap();
    assert_eq!(page.id(), next);
    assert!(page.is_empty());
    file.appended().unwrap();
    assert_eq!(file.page_count(), 2);
    file.ensure_allocated(PageId::new(1)).unwrap();
    match file.ensure_allocated(PageId::new(2)) {
        Err(NovaError::NotFound(m)) => assert_eq!(m, "page 2"),
        other => panic!("unexpected {other:?}"),
    }
}

#[test]
fn page_offsets_are_exact_or_refused() {
    assert_eq!(page_offset(PageId::new(3)).unwrap(), 12288);
    assert!(matches!(page_offset(PageId::new(u64::MAX / 4096 + 1)), Err(NovaError::Storage(_))));
    assert_eq!(page_offset(PageId::new(u64::MAX / 4096)).unwrap(), (u64::MAX / 4096) * 4096);
}

#[test]
fn a_page_read_back_must_carry_its_own_id() {
    let bytes = Page::new(PageId::new(7)).to_bytes().unwrap();
    assert!(read_page(PageId::new(7), &bytes).is_ok());
    match read_page(PageId::new(8), &bytes) {
        Err(NovaError::Corruption(m)) => assert_eq!(m, "page 8 contains header for page 7"),
        other => panic!("unexpected {other:?}"),
    }
    let mut damaged = bytes.clone();
    damaged[100] ^= 1;
    assert!(matches!(read_page(PageId::new(7), &damaged), Err(NovaError::Corruption(_))));
}

#[test]
fn the_directory_files_each_document_once() {
    let mut directory = DocumentDirectory::new();
    assert!(directory.is_empty());
    directory.record_scanned(id(1), at(0, 0)).unwrap();
    directory.record_inserted(id(2), at(0, 1));
    assert_eq!(directory.len(), 2);
    assert_eq!(directory.locate(&id(2)), Some(at(0, 1)));
    assert_eq!(directory.locate(&id(3)), None);
    match directory.record_scanned(id(1), at(4, 4)) {
        Err(NovaError::Corruption(m)) => {
            assert_eq!(m, format!("duplicate document id {} in page file", id(1).to_string()))
        }
        other => panic!("unexpected {other:?}"),
    }
    assert_eq!(directory.locate(&id(1)), Some(at(0, 0)));
    match directory.check_insert(&id(2), 10) {
        Err(NovaError::AlreadyExists(m)) => assert_eq!(m, format!("document {}", id(2).to_string())),
        other => panic!("unexpected {other:?}"),
    }
    directory.check_insert(&id(3), 4060).unwrap();
    match directory.check_insert(&id(3), 4061) {
        Err(NovaError::Storage(m)) => assert_eq!(
            m,
            format!("encoded document {} is 4061 bytes; page record capacity is 4060", id(3).to_string())
        ),
        other => panic!("unexpected {other:?}"),
    }
}

#[test]
fn records_are_found_where_the_directory_says() {
    let mut page = Page::new(PageId::new(0));
    page.insert(b"doc").unwrap();
    assert_eq!(stored_record(&id(1), at(0, 0), &page).unwrap(), b"doc");
    match stored_record(&id(1), at(0, 3), &page) {
        Err(NovaError::Corruption(m)) => assert_eq!(
            m,
            format!("document {} points to missing page 0 slot 3", id(1).to_string())
        ),
        other => panic!("unexpected {other:?}"),
    }
    check_stored_id(&id(4), &id(4)).unwrap();
    assert!(matches!(check_stored_id(&id(4), &id(5)), Err(NovaError::Corruption(_))));
}
