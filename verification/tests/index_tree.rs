use novadb::error::NovaError;
use novadb::index::{BPlusTree, IndexKey, OrderedF64};
use novadb::index_file::{decode_tree, encode_tree};
use novadb::nova_id::NovaId;

fn id(value: u8) -> NovaId {
    NovaId::new(u64::from(value), [value; 8])
}

fn float64(value: f64) -> IndexKey {
    IndexKey::Float64(OrderedF64::from_bits(value.to_bits()))
}

fn tree_with_max_keys(max_keys: usize) -> BPlusTree {
    BPlusTree::create_with_max_keys("memory.nvix".to_owned(), max_keys).unwrap()
}

fn snapshot(tree: &mut BPlusTree) -> Vec<u8> {
    let bytes = tree.pending_snapshot().unwrap().unwrap();
    tree.mark_synced();
    bytes
}

#[test]
fn inserts_split_multiple_levels_and_lookup_exactly() {
    let mut tree = tree_with_max_keys(3);
    for value in (0_u8..100).rev() {
        tree.insert(IndexKey::Int64(i64::from(value)), id(value)).unwrap();
    }
    tree.verify().unwrap();
    for value in 0_u8..100 {
        assert_eq!(tree.get(&IndexKey::Int64(i64::from(value))), vec![id(value)]);
    }
    assert!(tree.get(&IndexKey::Int64(101)).is_empty());
}

#[test]
fn duplicate_keys_are_sorted_idempotent_and_removable() {
    let mut tree = tree_with_max_keys(3);
    let key = IndexKey::String("CSE".to_owned());
    tree.insert(key.clone(), id(3)).unwrap();
    tree.insert(key.clone(), id(1)).unwrap();
    tree.insert(key.clone(), id(2)).unwrap();
    tree.insert(key.clone(), id(2)).unwrap();
    assert_eq!(tree.get(&key), vec![id(1), id(2), id(3)]);
    assert!(tree.remove(&key, id(2)));
    assert!(!tree.remove(&key, id(2)));
    assert_eq!(tree.get(&key), vec![id(1), id(3)]);
    tree.verify().unwrap();
}

#[test]
fn inclusive_range_crosses_leaf_boundaries() {
    let mut tree = tree_with_max_keys(3);
    for value in 0_u8..20 {
        tree.insert(IndexKey::Int64(i64::from(value)), id(value)).unwrap();
    }
    let rows = tree.range(&IndexKey::Int64(6), &IndexKey::Int64(13)).unwrap();
    assert_eq!(rows.len(), 8);
    assert_eq!(rows.first().unwrap(), &(IndexKey::Int64(6), id(6)));
    assert_eq!(rows.last().unwrap(), &(IndexKey::Int64(13), id(13)));
    assert!(tree.range(&IndexKey::Int64(2), &IndexKey::Int64(1)).is_err());
}

#[test]
fn every_key_type_has_deterministic_ordering() {
    assert!(IndexKey::Int64(9) < float64(-100.0));
    assert!(float64(f64::NEG_INFINITY) < float64(-0.0));
    assert!(float64(-0.0) < float64(0.0));
    assert!(float64(f64::INFINITY) < float64(f64::NAN));
    assert_eq!(float64(f64::NAN), float64(-f64::NAN));
    assert!(IndexKey::String("z".to_owned()) < IndexKey::NovaId(id(0)));
}

#[test]
fn sync_reopen_preserves_tree_and_future_splits() {
    let bytes = {
        let mut tree = tree_with_max_keys(3);
        for value in 0_u8..40 {
            tree.insert(IndexKey::Int64(i64::from(value)), id(value)).unwrap();
        }
        snapshot(&mut tree)
    };
    let mut tree = BPlusTree::open_bytes("memory.nvix".to_owned(), &bytes).unwrap();
    for value in 40_u8..80 {
        tree.insert(IndexKey::Int64(i64::from(value)), id(value)).unwrap();
    }
    let bytes = snapshot(&mut tree);
    let reopened = BPlusTree::open_bytes("memory.nvix".to_owned(), &bytes).unwrap();
    reopened.verify().unwrap();
    assert_eq!(reopened.get(&IndexKey::Int64(0)), vec![id(0)]);
    assert_eq!(reopened.get(&IndexKey::Int64(79)), vec![id(79)]);
}

#[test]
fn unsupported_values_and_bad_capacities_are_typed_errors() {
    assert!(matches!(
        BPlusTree::create_with_max_keys("capacity.nvix".to_owned(), 2),
        Err(NovaError::InvalidArgument(_))
    ));
}

#[test]
fn corrupted_and_truncated_files_never_panic() {
    let valid = {
        let mut tree = tree_with_max_keys(3);
        for value in 0_u8..10 {
            tree.insert(IndexKey::Int64(i64::from(value)), id(value)).unwrap();
        }
        snapshot(&mut tree)
    };
    for length in 0..valid.len() {
        assert!(decode_tree(&valid[..length]).is_err(), "truncation {length} was accepted");
    }
    let mut corrupted = valid;
    let index = corrupted.len() - 1;
    corrupted[index] ^= 1;
    assert!(matches!(
        BPlusTree::open_bytes("memory.nvix".to_owned(), &corrupted),
        Err(NovaError::Corruption(_))
    ));
}

#[test]
fn every_key_kind_survives_a_file_round_trip() {
    let mut tree = tree_with_max_keys(3);
    tree.insert(IndexKey::Int64(-5), id(1)).unwrap();
    tree.insert(float64(2.5), id(2)).unwrap();
    tree.insert(float64(f64::NAN), id(3)).unwrap();
    tree.insert(IndexKey::String("héllo".to_owned()), id(4)).unwrap();
    tree.insert(IndexKey::NovaId(id(9)), id(5)).unwrap();
    let bytes = snapshot(&mut tree);
    assert!(tree.pending_snapshot().unwrap().is_none());
    let reopened = BPlusTree::open_bytes("memory.nvix".to_owned(), &bytes).unwrap();
    assert_eq!(reopened.get(&IndexKey::Int64(-5)), vec![id(1)]);
    assert_eq!(reopened.get(&float64(2.5)), vec![id(2)]);
    assert_eq!(reopened.get(&float64(-f64::NAN)), vec![id(3)]);
    assert_eq!(reopened.get(&IndexKey::String("héllo".to_owned())), vec![id(4)]);
    assert_eq!(reopened.get(&IndexKey::NovaId(id(9))), vec![id(5)]);
    assert_eq!(&bytes[..4], b"NVIX");
}

#[test]
fn other_versions_are_unsupported_and_bad_structure_is_corruption() {
    let mut tree = tree_with_max_keys(3);
    tree.insert(IndexKey::Int64(1), id(1)).unwrap();
    let bytes = snapshot(&mut tree);
    let mut future = bytes.clone();
    future[5] = 2;
    assert!(matches!(
        BPlusTree::open_bytes("memory.nvix".to_owned(), &future),
        Err(NovaError::Unsupported(_))
    ));
    let mut bad_magic = bytes;
    bad_magic[0] = b'X';
    assert!(matches!(
        BPlusTree::open_bytes("memory.nvix".to_owned(), &bad_magic),
        Err(NovaError::Corruption(_))
    ));
}

#[test]
fn a_written_file_decodes_to_parts_that_encode_it_again() {
    let mut tree = tree_with_max_keys(3);
    for value in 0_u8..10 {
        tree.insert(IndexKey::Int64(i64::from(value)), id(value)).unwrap();
    }
    tree.insert(float64(-1.5), id(20)).unwrap();
    tree.insert(IndexKey::String("key".to_owned()), id(21)).unwrap();
    let bytes = snapshot(&mut tree);
    let (max_keys, root, nodes) = decode_tree(&bytes).unwrap();
    assert_eq!(max_keys, 3);
    assert!(root < nodes.len());
    assert_eq!(encode_tree(max_keys, root, &nodes).unwrap(), bytes);
}
