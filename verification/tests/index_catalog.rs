use novadb::catalog::{decode_definition, encode_definition, validate_field, validate_identifier, IndexCatalog, IndexDefinition};
use novadb::error::NovaError;
use novadb::index::{BPlusTree, IndexKey};
use novadb::nova_id::NovaId;

fn id(seed: u8) -> NovaId {
    NovaId::new(u64::from(seed), [seed; 8])
}

fn text(value: &str) -> IndexKey {
    IndexKey::String(value.to_owned())
}

/// Writes every index of the catalog out and opens them again, as a reopen
/// of the directory does.
fn reopen(catalog: &mut IndexCatalog) -> IndexCatalog {
    let mut files = Vec::new();
    for definition in catalog.definitions() {
        let meta = encode_definition(&definition).unwrap();
        let tree = catalog.pending_snapshot(&definition.name).unwrap().unwrap();
        catalog.mark_synced(&definition.name).unwrap();
        files.push((meta, tree));
    }
    let mut reopened = IndexCatalog::new(catalog.directory().to_owned());
    for (meta, tree) in files {
        let definition = decode_definition(&meta).unwrap();
        let tree = BPlusTree::open_bytes(format!("{}.nvix", definition.name), &tree).unwrap();
        reopened.add_opened(definition, tree).unwrap();
    }
    reopened
}

#[test]
fn create_backfill_mutate_reopen_and_drop() {
    let (ada, bob, cara) = (id(1), id(2), id(3));
    let mut catalog = IndexCatalog::new("lifecycle".to_owned());
    catalog
        .create_index(
            "by_branch",
            "students",
            vec!["branch".to_owned()],
            vec![(Some(text("CSE")), ada), (Some(text("ECE")), bob)],
            "by_branch.nvix".to_owned(),
        )
        .unwrap();
    catalog
        .create_index(
            "by_score",
            "students",
            vec!["profile".to_owned(), "score".to_owned()],
            vec![(Some(IndexKey::Int64(90)), ada), (Some(IndexKey::Int64(70)), bob)],
            "by_score.nvix".to_owned(),
        )
        .unwrap();
    assert_eq!(catalog.lookup("by_branch", &text("CSE")).unwrap(), vec![ada]);

    catalog
        .insert_document_keys("students", cara, &vec![Some(text("CSE")), Some(IndexKey::Int64(85))])
        .unwrap();
    catalog
        .replace_document_keys(
            "students",
            bob,
            bob,
            &vec![Some(text("ECE")), Some(IndexKey::Int64(70))],
            &vec![Some(text("CSE")), Some(IndexKey::Int64(75))],
        )
        .unwrap();
    catalog
        .delete_document_keys("students", ada, &vec![Some(text("CSE")), Some(IndexKey::Int64(90))])
        .unwrap();

    let mut reopened = reopen(&mut catalog);
    assert_eq!(reopened.definitions().len(), 2);
    assert_eq!(reopened.lookup("by_branch", &text("CSE")).unwrap(), vec![bob, cara]);
    assert_eq!(reopened.lookup("by_score", &IndexKey::Int64(75)).unwrap(), vec![bob]);
    let dropped = reopened.drop_collection_indexes("students");
    assert_eq!(dropped, vec!["by_branch".to_owned(), "by_score".to_owned()]);
    assert!(reopened.definitions().is_empty());
}

#[test]
fn missing_null_and_unindexable_values_are_explicit() {
    let mut catalog = IndexCatalog::new("values".to_owned());
    catalog
        .create_index("by_tag", "items", vec!["tag".to_owned()], vec![(None, id(1)), (None, id(2))], "by_tag.nvix".to_owned())
        .unwrap();
    assert!(catalog.lookup("by_tag", &text("x")).unwrap().is_empty());
    assert!(matches!(
        catalog.insert_document_keys("items", id(3), &vec![]),
        Err(NovaError::InvalidArgument(_))
    ));
}

#[test]
fn corrupt_metadata_and_duplicate_names_are_rejected() {
    let mut catalog = IndexCatalog::new("corrupt".to_owned());
    catalog.create_index("by_id", "items", vec!["_id".to_owned()], vec![], "by_id.nvix".to_owned()).unwrap();
    assert!(matches!(
        catalog.create_index("by_id", "items", vec!["_id".to_owned()], vec![], "by_id.nvix".to_owned()),
        Err(NovaError::AlreadyExists(_))
    ));
    let definition = catalog.definitions().remove(0);
    let mut bytes = encode_definition(&definition).unwrap();
    assert_eq!(decode_definition(&bytes).unwrap(), definition);
    bytes[6] ^= 1;
    assert!(matches!(decode_definition(&bytes), Err(NovaError::Corruption(_))));
}

#[test]
fn identifiers_and_field_paths_are_validated() {
    assert!(validate_identifier("by_name2").is_ok());
    assert!(matches!(validate_identifier(""), Err(NovaError::InvalidArgument(_))));
    assert!(matches!(validate_identifier("a-b"), Err(NovaError::InvalidArgument(_))));
    assert!(matches!(validate_field(&vec![]), Err(NovaError::InvalidArgument(_))));
    assert!(validate_field(&vec!["a".to_owned(), "b".to_owned()]).is_ok());
    let mut catalog = IndexCatalog::new("names".to_owned());
    assert!(matches!(
        catalog.create_index("bad name", "items", vec!["x".to_owned()], vec![], "x.nvix".to_owned()),
        Err(NovaError::InvalidArgument(_))
    ));
    assert!(matches!(catalog.lookup("missing", &IndexKey::Int64(1)), Err(NovaError::NotFound(_))));
    assert!(matches!(catalog.drop_index("missing"), Err(NovaError::NotFound(_))));
    let duplicate = IndexDefinition { name: "dup".to_owned(), collection: "c".to_owned(), field: vec!["f".to_owned()] };
    catalog.add_opened(duplicate.clone(), BPlusTree::create("dup.nvix".to_owned()).unwrap()).unwrap();
    assert!(matches!(
        catalog.add_opened(duplicate, BPlusTree::create("dup.nvix".to_owned()).unwrap()),
        Err(NovaError::Corruption(_))
    ));
    catalog.drop_index("dup").unwrap();
    assert!(catalog.definitions().is_empty());
}

#[test]
fn metadata_of_another_version_is_unsupported() {
    let definition = IndexDefinition { name: "n".to_owned(), collection: "c".to_owned(), field: vec!["f".to_owned()] };
    let mut bytes = encode_definition(&definition).unwrap();
    bytes[5] = 2;
    let payload = bytes.len() - 4;
    let checksum = novadb::checksum::crc32(&bytes[..payload], 0, 0);
    bytes[payload..].copy_from_slice(&checksum.to_be_bytes());
    assert!(matches!(decode_definition(&bytes), Err(NovaError::Unsupported(_))));
}

#[test]
fn replacement_moves_only_changed_keys_and_keeps_the_id() {
    let (ada, bob) = (id(1), id(2));
    let mut catalog = IndexCatalog::new("replace".to_owned());
    catalog
        .create_index("by_branch", "students", vec!["branch".to_owned()], vec![(Some(text("CSE")), ada)], "b.nvix".to_owned())
        .unwrap();
    catalog
        .create_index("by_city", "people", vec!["city".to_owned()], vec![(Some(text("Pune")), ada)], "c.nvix".to_owned())
        .unwrap();
    assert!(matches!(
        catalog.replace_document_keys("students", ada, bob, &vec![None, None], &vec![None, None]),
        Err(NovaError::InvalidArgument(ref m)) if m == "replacement document id must not change"
    ));
    assert!(matches!(
        catalog.replace_document_keys("students", ada, ada, &vec![None], &vec![None, None]),
        Err(NovaError::InvalidArgument(_))
    ));
    // Same key: nothing moves. Another collection's index is left alone.
    catalog
        .replace_document_keys("students", ada, ada, &vec![Some(text("CSE")), Some(text("Pune"))], &vec![Some(text("CSE")), None])
        .unwrap();
    assert_eq!(catalog.lookup("by_branch", &text("CSE")).unwrap(), vec![ada]);
    assert_eq!(catalog.lookup("by_city", &text("Pune")).unwrap(), vec![ada]);
    // A key that goes away removes the entry.
    catalog
        .replace_document_keys("students", ada, ada, &vec![Some(text("CSE")), None], &vec![None, None])
        .unwrap();
    assert!(catalog.lookup("by_branch", &text("CSE")).unwrap().is_empty());
}
