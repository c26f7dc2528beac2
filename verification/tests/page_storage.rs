use novadb::checksum::crc32;
use novadb::error::NovaError;
use novadb::page::{Page, PageId, PAGE_FORMAT_VERSION, PAGE_SIZE};

#[test]
fn matches_standard_crc32_check_value() {
    assert_eq!(crc32(b"123456789", 0, 0), 0xcbf4_3926);
}

#[test]
fn zeroed_range_is_treated_as_zero_bytes() {
    assert_eq!(crc32(b"abc", 1, 2), crc32(b"a\0c", 0, 0));
}

#[test]
fn empty_page_round_trips() {
    let page = Page::new(PageId::new(7));
    let decoded = Page::from_bytes(&page.to_bytes().unwrap()).unwrap();
    assert_eq!(decoded, page);
    assert!(decoded.is_empty());
}

#[test]
fn records_round_trip_and_deleted_slot_is_reused() {
    let mut page = Page::new(PageId::new(3));
    let first = page.insert(b"first").unwrap();
    let second = page.insert(b"").unwrap();
    let third = page.insert(b"third record").unwrap();
    assert_eq!(page.remove(second).unwrap(), b"");
    let replacement = page.insert(b"replacement").unwrap();
    assert_eq!(replacement, second);

    let decoded = Page::from_bytes(&page.to_bytes().unwrap()).unwrap();
    assert_eq!(decoded.get(first), Some(b"first".as_slice()));
    assert_eq!(decoded.get(replacement), Some(b"replacement".as_slice()));
    assert_eq!(decoded.get(third), Some(b"third record".as_slice()));
    assert_eq!(decoded.len(), 3);
}

#[test]
fn removed_slots_survive_serialization() {
    let mut page = Page::new(PageId::new(1));
    let removed = page.insert(b"gone").unwrap();
    let kept = page.insert(b"kept").unwrap();
    page.remove(removed).unwrap();
    let decoded = Page::from_bytes(&page.to_bytes().unwrap()).unwrap();
    assert_eq!(decoded.get(removed), None);
    assert_eq!(decoded.get(kept), Some(b"kept".as_slice()));
    assert_eq!(decoded.slot_count(), 2);
}

#[test]
fn insertion_fails_cleanly_when_page_is_full() {
    let mut page = Page::new(PageId::new(1));
    let capacity = page.free_space();
    page.insert(&vec![0xaa; capacity]).unwrap();
    assert_eq!(page.free_space(), 0);
    assert!(matches!(page.insert(b"x"), Err(NovaError::Storage(_))));
    assert!(Page::from_bytes(&page.to_bytes().unwrap()).is_ok());
}

#[test]
fn corruption_and_unknown_versions_are_typed_errors() {
    let page = Page::new(PageId::new(1));
    let valid = page.to_bytes().unwrap();

    let mut corrupt = valid.clone();
    corrupt[100] ^= 1;
    assert!(matches!(
        Page::from_bytes(&corrupt),
        Err(NovaError::Corruption(_))
    ));

    let mut unsupported = page.to_bytes().unwrap();
    unsupported[4..6].copy_from_slice(&(PAGE_FORMAT_VERSION + 1).to_be_bytes());
    assert!(matches!(
        Page::from_bytes(&unsupported),
        Err(NovaError::Unsupported(_))
    ));
}

#[test]
fn malformed_page_never_panics_at_any_input_length() {
    let bytes = Page::new(PageId::new(9)).to_bytes().unwrap();
    for end in 0..PAGE_SIZE {
        assert!(Page::from_bytes(&bytes[..end]).is_err());
    }
}

#[test]
fn serialized_layout_packs_payloads_downward() {
    let mut page = Page::new(PageId::new(0x0102));
    page.insert(b"ab").unwrap();
    page.insert(b"cde").unwrap();
    let bytes = page.to_bytes().unwrap();
    assert_eq!(bytes.len(), PAGE_SIZE);
    assert_eq!(&bytes[..4], b"NVPG");
    assert_eq!(&bytes[8..16], &0x0102_u64.to_be_bytes());
    assert_eq!(&bytes[20..22], &2_u16.to_be_bytes());
    assert_eq!(&bytes[24..26], &40_u16.to_be_bytes());
    assert_eq!(&bytes[26..28], &4091_u16.to_be_bytes());
    assert_eq!(&bytes[32..36], &[0x0f, 0xfe, 0x00, 0x02]);
    assert_eq!(&bytes[36..40], &[0x0f, 0xfb, 0x00, 0x03]);
    assert_eq!(&bytes[4091..], b"cdeab");
}

#[test]
fn page_without_room_for_its_directory_is_not_serializable() {
    let mut page = Page::new(PageId::new(1));
    let capacity = page.free_space();
    page.insert(&vec![1; capacity]).unwrap();
    page.insert(b"").unwrap();
    assert!(matches!(page.to_bytes(), Err(NovaError::Storage(_))));
}

#[test]
fn removing_missing_or_deleted_slots_is_not_found() {
    let mut page = Page::new(PageId::new(1));
    let slot = page.insert(b"x").unwrap();
    page.remove(slot).unwrap();
    assert!(matches!(page.remove(slot), Err(NovaError::NotFound(_))));
    assert!(matches!(
        page.remove(novadb::page::SlotId::new(9)),
        Err(NovaError::NotFound(_))
    ));
    assert_eq!(page.records().len(), 0);
}
