use mz_storage_controller::controller::{
    Controller, CreateSourceCommand, GlobalId, ReadPolicy, SourceDesc, StorageError, Update,
};
use mz_storage_controller::frontier::{less_equal, Frontier};
use mz_storage_controller::shard::PersistLocation;

fn location() -> PersistLocation {
    PersistLocation { blob_uri: String::new(), consensus_uri: String::new() }
}

fn desc_a() -> SourceDesc {
    SourceDesc { connector: 1 }
}

fn desc_b() -> SourceDesc {
    SourceDesc { connector: 2 }
}

fn created(bindings: Vec<(GlobalId, (SourceDesc, Frontier))>) -> (Controller, Vec<CreateSourceCommand>) {
    let mut ctl = Controller::new(location());
    let cmds = ctl.create_sources(&bindings).unwrap();
    (ctl, cmds)
}

fn row(t: u64) -> Update {
    Update { row: vec![1, 2, 3], timestamp: t, diff: 1 }
}

#[test]
fn create_then_query() {
    let (ctl, cmds) = created(vec![(7, (desc_a(), Some(5)))]);
    assert_eq!(cmds.len(), 1);
    assert_eq!(cmds[0].id, 7);
    assert_eq!(cmds[0].desc, desc_a());
    assert_eq!(cmds[0].since, Some(5));
    let meta = ctl.collection_metadata(7).unwrap();
    assert_eq!(meta.persist_shard, cmds[0].storage_metadata.persist_shard);
    assert_eq!(meta.timestamp_shard_id, cmds[0].storage_metadata.timestamp_shard_id);
    assert_eq!(meta.persist_location, location());
    let c = ctl.collection(7).unwrap();
    assert_eq!(c.read_capabilities.frontier(), Some(5));
    assert_eq!(c.write_frontier.frontier(), Some(0));
    assert_eq!(c.implied_capability, Some(5));
    assert_eq!(c.read_policy, ReadPolicy::ValidFrom(Some(5)));
    assert_eq!(c.description, (desc_a(), Some(5)));
}

#[test]
fn duplicate_creation_fails() {
    let mut ctl = Controller::new(location());
    let r = ctl.create_sources(&vec![(7, (desc_a(), Some(5))), (7, (desc_a(), Some(5)))]);
    assert_eq!(r.err(), Some(StorageError::SourceIdReused(7)));
    assert_eq!(ctl.collection(7).err(), Some(StorageError::IdentifierMissing(7)));
}

#[test]
fn duplicate_creation_names_least_id() {
    let mut ctl = Controller::new(location());
    let r = ctl.create_sources(&vec![
        (9, (desc_a(), Some(1))),
        (4, (desc_a(), Some(1))),
        (9, (desc_b(), Some(1))),
        (4, (desc_b(), Some(2))),
    ]);
    assert_eq!(r.err(), Some(StorageError::SourceIdReused(4)));
}

#[test]
fn rebinding_to_other_description_fails() {
    let (mut ctl, _) = created(vec![(3, (desc_a(), Some(1))), (8, (desc_a(), Some(1)))]);
    let r = ctl.create_sources(&vec![(8, (desc_b(), Some(1))), (3, (desc_a(), Some(2))), (20, (desc_a(), None))]);
    assert_eq!(r.err(), Some(StorageError::SourceIdReused(3)));
    assert!(ctl.collection(20).is_err());
}

#[test]
fn identical_rebinding_is_idempotent() {
    let (mut ctl, first) = created(vec![(3, (desc_a(), Some(1)))]);
    let upper = ctl.check_append(3, &vec![row(1)], 4).unwrap();
    ctl.complete_append(3, upper, 4, true).unwrap();
    let cmds = ctl.create_sources(&vec![(3, (desc_a(), Some(1))), (6, (desc_b(), Some(2)))]).unwrap();
    assert_eq!(cmds.len(), 1);
    assert_eq!(cmds[0].id, 6);
    let c = ctl.collection(3).unwrap();
    assert_eq!(c.write_frontier.frontier(), Some(4));
    assert_eq!(c.persist_shard, first[0].storage_metadata.persist_shard);
    assert_eq!(ctl.collection(6).unwrap().read_capabilities.frontier(), Some(2));
}

#[test]
fn create_commands_in_ascending_id_order() {
    let (_, cmds) = created(vec![(9, (desc_a(), Some(1))), (2, (desc_b(), None)), (5, (desc_a(), Some(3)))]);
    let ids: Vec<u64> = cmds.iter().map(|c| c.id).collect();
    assert_eq!(ids, vec![2, 5, 9]);
    assert_eq!(cmds[0].since, None);
    assert_eq!(cmds[0].desc, desc_b());
}

#[test]
fn append_advances_upper() {
    let (mut ctl, _) = created(vec![(7, (desc_a(), Some(5)))]);
    let upper = ctl.check_append(7, &vec![row(5)], 6).unwrap();
    assert_eq!(upper, Some(0));
    let r = ctl.complete_append(7, upper, 6, true);
    assert!(r.is_ok());
    assert_eq!(ctl.collection(7).unwrap().write_frontier.frontier(), Some(6));
    let second = ctl.check_append(7, &vec![row(6)], 6);
    assert_eq!(second, Err(StorageError::UpdateBeyondUpper(7)));
}

#[test]
fn append_not_beyond_upper_fails_invalid_upper() {
    let (mut ctl, _) = created(vec![(7, (desc_a(), Some(5)))]);
    let upper = ctl.check_append(7, &vec![row(5)], 6).unwrap();
    ctl.complete_append(7, upper, 6, true).unwrap();
    assert_eq!(ctl.check_append(7, &vec![], 6), Err(StorageError::InvalidUpper(7)));
    assert_eq!(ctl.check_append(7, &vec![row(2)], 4), Err(StorageError::InvalidUpper(7)));
    assert_eq!(ctl.collection(7).unwrap().write_frontier.frontier(), Some(6));
}

#[test]
fn append_beyond_upper_checked_before_upper() {
    let (ctl, _) = created(vec![(7, (desc_a(), Some(5)))]);
    assert_eq!(ctl.check_append(7, &vec![row(1), row(0)], 0), Err(StorageError::UpdateBeyondUpper(7)));
    assert_eq!(ctl.check_append(8, &vec![row(9)], 3), Err(StorageError::UpdateBeyondUpper(8)));
}

#[test]
fn append_to_missing_collection_fails() {
    let (ctl, _) = created(vec![(7, (desc_a(), Some(5)))]);
    assert_eq!(ctl.check_append(8, &vec![row(1)], 3), Err(StorageError::IdentifierMissing(8)));
}

#[test]
fn refused_durable_append_changes_nothing() {
    let (mut ctl, _) = created(vec![(7, (desc_a(), Some(5)))]);
    let r = ctl.complete_append(7, Some(0), 6, false);
    assert_eq!(r, Err(StorageError::InvalidUpper(7)));
    assert_eq!(ctl.collection(7).unwrap().write_frontier.frontier(), Some(0));
}

#[test]
fn lag_by_policy_ratchets_compaction() {
    let (mut ctl, _) = created(vec![(7, (desc_a(), Some(5)))]);
    let first = ctl.set_read_policy(&vec![(7, ReadPolicy::LagBy(2))]);
    assert!(first.is_empty());
    assert_eq!(ctl.collection(7).unwrap().implied_capability, Some(5));
    let cmds = ctl.update_write_frontiers(&vec![(7, vec![(10, 1), (0, -1)])]);
    assert_eq!(cmds, vec![(7, Some(8))]);
    let cmds = ctl.update_write_frontiers(&vec![(7, vec![(9, 1), (10, -1)])]);
    assert!(cmds.is_empty());
    let c = ctl.collection(7).unwrap();
    assert_eq!(c.implied_capability, Some(8));
    assert_eq!(c.read_capabilities.frontier(), Some(8));
    assert_eq!(c.write_frontier.frontier(), Some(9));
}

#[test]
fn drop_allows_full_compaction() {
    let (mut ctl, _) = created(vec![(7, (desc_a(), Some(5)))]);
    let cmds = ctl.drop_sources(&vec![7]).unwrap();
    assert_eq!(cmds, vec![(7, None)]);
    let c = ctl.collection(7).unwrap();
    assert_eq!(c.implied_capability, None);
    assert_eq!(c.read_policy, ReadPolicy::ValidFrom(None));
    assert_eq!(c.read_capabilities.frontier(), None);
}

#[test]
fn drop_of_missing_id_changes_nothing() {
    let (mut ctl, _) = created(vec![(7, (desc_a(), Some(5)))]);
    assert_eq!(ctl.drop_sources(&vec![7, 8]).err(), Some(StorageError::IdentifierMissing(8)));
    assert_eq!(ctl.collection(7).unwrap().implied_capability, Some(5));
}

#[test]
fn create_drop_create_again_fails() {
    let (mut ctl, _) = created(vec![(7, (desc_a(), Some(5)))]);
    ctl.drop_sources(&vec![7]).unwrap();
    let r = ctl.create_sources(&vec![(7, (desc_b(), Some(5)))]);
    assert_eq!(r.err(), Some(StorageError::SourceIdReused(7)));
    assert!(ctl.collection(7).is_ok());
}

#[test]
fn create_drop_create_same_description_fails() {
    let (mut ctl, first) = created(vec![(7, (desc_a(), Some(5)))]);
    ctl.drop_sources(&vec![7]).unwrap();
    let r = ctl.create_sources(&vec![(7, (desc_a(), Some(5)))]);
    assert_eq!(r.err(), Some(StorageError::SourceIdReused(7)));
    let c = ctl.collection(7).unwrap();
    assert_eq!(c.persist_shard, first[0].storage_metadata.persist_shard);
    assert_eq!(c.read_capabilities.frontier(), None);
}

#[test]
fn repeated_ids_in_write_updates_apply_in_order() {
    let (mut ctl, _) = created(vec![(7, (desc_a(), Some(0))), (2, (desc_a(), Some(0)))]);
    ctl.set_read_policy(&vec![(7, ReadPolicy::LagBy(1)), (2, ReadPolicy::LagBy(1))]);
    let cmds = ctl.update_write_frontiers(&vec![
        (7, vec![(4, 1), (0, -1)]),
        (2, vec![(3, 1), (0, -1)]),
        (7, vec![(9, 1), (4, -1)]),
    ]);
    assert_eq!(cmds, vec![(7, Some(8)), (2, Some(2))]);
    assert_eq!(ctl.collection(7).unwrap().write_frontier.frontier(), Some(9));
    assert_eq!(ctl.collection(2).unwrap().write_frontier.frontier(), Some(3));
}

#[test]
fn batch_ordering_descending() {
    let (mut ctl, _) = created(vec![
        (3, (desc_a(), Some(10))),
        (5, (desc_a(), Some(10))),
        (9, (desc_a(), Some(2))),
    ]);
    let updates = vec![(3, vec![(5, 1)]), (9, vec![(2, -1)]), (5, vec![(4, 1)])];
    let cmds = ctl.update_read_capabilities(&updates);
    assert_eq!(cmds, vec![(9, None), (5, Some(4)), (3, Some(5))]);
}

#[test]
fn read_update_without_frontier_change_emits_nothing() {
    let (mut ctl, _) = created(vec![(3, (desc_a(), Some(1)))]);
    let cmds = ctl.update_read_capabilities(&vec![(3, vec![(7, 1)])]);
    assert!(cmds.is_empty());
    assert_eq!(ctl.collection(3).unwrap().read_capabilities.frontier(), Some(1));
}

#[test]
fn implied_capability_never_regresses() {
    let (mut ctl, _) = created(vec![(7, (desc_a(), Some(5)))]);
    let cmds = ctl.set_read_policy(&vec![(7, ReadPolicy::ValidFrom(Some(3)))]);
    assert!(cmds.is_empty());
    let c = ctl.collection(7).unwrap();
    assert_eq!(c.implied_capability, Some(5));
    assert_eq!(c.read_policy, ReadPolicy::ValidFrom(Some(3)));
}

#[test]
fn repeated_policy_ids_keep_last_policy() {
    let (mut ctl, _) = created(vec![(7, (desc_a(), Some(5)))]);
    let cmds = ctl.set_read_policy(&vec![
        (7, ReadPolicy::ValidFrom(Some(8))),
        (4, ReadPolicy::ValidFrom(Some(9))),
        (7, ReadPolicy::ValidFrom(Some(12))),
    ]);
    assert_eq!(cmds, vec![(7, Some(12))]);
    let c = ctl.collection(7).unwrap();
    assert_eq!(c.implied_capability, Some(12));
    assert_eq!(c.read_policy, ReadPolicy::ValidFrom(Some(12)));
    assert_eq!(c.read_capabilities.frontier(), Some(12));
}

#[test]
fn compaction_frontiers_non_decreasing() {
    let (mut ctl, _) = created(vec![(7, (desc_a(), Some(0)))]);
    ctl.set_read_policy(&vec![(7, ReadPolicy::LagBy(3))]);
    let mut last: Frontier = Some(0);
    let mut prev_upper: u64 = 0;
    for upper in [4u64, 9, 6, 15, 20] {
        let cmds = ctl.update_write_frontiers(&vec![(7, vec![(upper, 1), (prev_upper, -1)])]);
        prev_upper = upper;
        for (id, f) in cmds {
            assert_eq!(id, 7);
            assert!(less_equal(&last, &f));
            last = f;
        }
    }
    assert_eq!(last, Some(17));
}

#[test]
fn read_frontier_stays_below_write_frontier_under_lag() {
    let (mut ctl, _) = created(vec![(7, (desc_a(), Some(0)))]);
    ctl.set_read_policy(&vec![(7, ReadPolicy::LagBy(1))]);
    let mut prev: u64 = 0;
    for upper in [2u64, 5, 11] {
        ctl.update_write_frontiers(&vec![(7, vec![(upper, 1), (prev, -1)])]);
        prev = upper;
        let c = ctl.collection(7).unwrap();
        assert!(less_equal(&c.read_capabilities.frontier(), &c.write_frontier.frontier()));
    }
}

#[test]
fn validate_ids_names_missing_id() {
    let (ctl, _) = created(vec![(1, (desc_a(), Some(0))), (2, (desc_a(), Some(0)))]);
    assert_eq!(ctl.validate_ids(&vec![1, 2]), Ok(()));
    assert_eq!(ctl.validate_ids(&vec![1, 6, 2, 7]), Err(StorageError::IdentifierMissing(6)));
}

#[test]
fn metadata_of_missing_id() {
    let ctl = Controller::new(location());
    assert_eq!(ctl.collection_metadata(3), Err(StorageError::IdentifierMissing(3)));
}

#[test]
fn linearize_is_benign() {
    let (mut ctl, _) = created(vec![(1, (desc_a(), Some(0)))]);
    assert_eq!(ctl.linearize_sources(42, &vec![1, 2]), Ok(()));
}

#[test]
fn lag_by_saturates_at_minimum() {
    assert_eq!(ReadPolicy::LagBy(5).frontier(&Some(3)), Some(0));
    assert_eq!(ReadPolicy::LagBy(2).frontier(&Some(10)), Some(8));
    assert_eq!(ReadPolicy::LagBy(2).frontier(&None), None);
    assert_eq!(ReadPolicy::ValidFrom(Some(4)).frontier(&Some(1)), Some(4));
}
