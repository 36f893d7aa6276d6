use mz_storage_controller::frontier::{delta_batch, less_equal, MutableAntichain};
use mz_storage_controller::order::ascending_order;
use mz_storage_controller::shard::{CollectionMetadata, PersistLocation, ProtoCollectionMetadata, ProtoError, ShardId};

#[test]
fn antichain_order() {
    assert!(less_equal(&Some(1), &Some(2)));
    assert!(less_equal(&Some(2), &Some(2)));
    assert!(!less_equal(&Some(3), &Some(2)));
    assert!(less_equal(&Some(3), &None));
    assert!(!less_equal(&None, &Some(3)));
    assert!(less_equal(&None, &None));
}

#[test]
fn mutable_antichain_reports_frontier_changes() {
    let mut m = MutableAntichain::new();
    assert_eq!(m.frontier(), None);
    assert_eq!(m.update_iter(&vec![(5, 1), (3, 1)]), vec![(3, 1)]);
    assert_eq!(m.frontier(), Some(3));
    assert_eq!(m.update_iter(&vec![(7, 1)]), vec![]);
    assert_eq!(m.update_iter(&vec![(3, -1)]), vec![(5, 1), (3, -1)]);
    assert_eq!(m.update_iter(&vec![(5, -1), (7, -1)]), vec![(5, -1)]);
    assert_eq!(m.frontier(), None);
    let b = MutableAntichain::new_bottom(0);
    assert_eq!(b.frontier(), Some(0));
}

#[test]
fn negative_counts_do_not_form_frontier() {
    let mut m = MutableAntichain::new();
    m.update_iter(&vec![(1, -1), (4, 2)]);
    assert_eq!(m.frontier(), Some(4));
}

#[test]
fn delta_batches() {
    assert_eq!(delta_batch(&Some(5), &Some(8)), vec![(8, 1), (5, -1)]);
    assert_eq!(delta_batch(&Some(5), &Some(5)), vec![]);
    assert_eq!(delta_batch(&Some(5), &None), vec![(5, -1)]);
}

#[test]
fn ascending_positions() {
    assert_eq!(ascending_order(&vec![9, 3, 5]), vec![1, 2, 0]);
    assert_eq!(ascending_order(&vec![]), Vec::<usize>::new());
}

#[test]
fn shard_id_text_form() {
    let id = ShardId { uuid: 0 };
    assert_eq!(id.to_string(), "s00000000-0000-0000-0000-000000000000");
    let id = ShardId { uuid: 0x0123456789abcdef0123456789abcdef };
    assert_eq!(id.to_string(), "s01234567-89ab-cdef-0123-456789abcdef");
}

#[test]
fn shard_id_round_trip() {
    let id = ShardId::new();
    let text = id.to_string();
    assert_eq!(text.len(), 37);
    assert!(text.starts_with('s'));
    assert_eq!(ShardId::parse(&text), Ok(id));
}

#[test]
fn fresh_shard_ids_differ() {
    assert_ne!(ShardId::new(), ShardId::new());
}

#[test]
fn shard_id_parse_errors() {
    assert!(matches!(ShardId::parse(""), Err(ProtoError::InvalidShardId(_))));
    assert!(matches!(
        ShardId::parse("x00000000-0000-0000-0000-000000000000"),
        Err(ProtoError::InvalidShardId(_))
    ));
    assert!(matches!(ShardId::parse("snot-a-uuid"), Err(ProtoError::InvalidShardId(_))));
}

#[test]
fn metadata_proto_round_trip() {
    let m = CollectionMetadata {
        persist_location: PersistLocation { blob_uri: "mem://blob".to_string(), consensus_uri: "mem://c".to_string() },
        timestamp_shard_id: ShardId { uuid: 7 },
        persist_shard: ShardId::new(),
    };
    let p = m.into_proto();
    assert_eq!(p.blob_uri, "mem://blob");
    assert_eq!(p.consensus_uri, "mem://c");
    assert_eq!(p.timestamp_shard_id, "s00000000-0000-0000-0000-000000000007");
    assert_eq!(CollectionMetadata::from_proto(p), Ok(m));
}

#[test]
fn metadata_proto_invalid_shard() {
    let p = ProtoCollectionMetadata {
        blob_uri: String::new(),
        consensus_uri: String::new(),
        shard_id: "bogus".to_string(),
        timestamp_shard_id: "s00000000-0000-0000-0000-000000000000".to_string(),
    };
    assert!(matches!(CollectionMetadata::from_proto(p), Err(ProtoError::InvalidShardId(_))));
}
