use arroyo_state::checkpoints::{CheckpointCompaction, JobAction, JobEvent};
use arroyo_state::compaction::{
    compacted, files_to_delete, old_checkpoint_metadata, old_operator_metadata, CompactionAction,
    CompactionEvent, OperatorCompaction,
};
use arroyo_state::types::{copy_strings, BackendData, CheckpointMetadata, ParquetStoreData};

fn file(path: &str) -> ParquetStoreData {
    ParquetStoreData {
        epoch: 1,
        file: path.to_string(),
        table: "t".to_string(),
        min_routing_key: 0,
        max_routing_key: 0,
        max_timestamp_micros: 0,
        min_required_timestamp_micros: None,
    }
}

fn entries(paths: &[&str]) -> Option<Vec<BackendData>> {
    Some(paths.iter().map(|path| BackendData { backend_data: Some(file(path)) }).collect())
}

fn strings(list: &[&str]) -> Vec<String> {
    list.iter().map(|s| s.to_string()).collect()
}

fn job(operators: &[&str]) -> CheckpointMetadata {
    CheckpointMetadata {
        job_id: "job".to_string(),
        epoch: 9,
        min_epoch: 1,
        operator_ids: strings(operators),
    }
}

fn operator_compaction(old: u32, new: u32) -> (OperatorCompaction, CompactionAction) {
    OperatorCompaction::new("job".to_string(), "op".to_string(), old, new)
}

fn load_path(action: CompactionAction) -> String {
    match action {
        CompactionAction::Load { path } => path,
        other => panic!("expected a load, not {:?}", other),
    }
}

/// Runs a compaction to its end, with `metadata` as what the old checkpoints list, and returns
/// the paths that were loaded and the files that were deleted.
fn compact(
    old: u32,
    new: u32,
    kept: &[&str],
    metadata: &[Option<Vec<&str>>],
) -> (Vec<String>, Vec<String>) {
    let (mut compaction, first) = operator_compaction(old, new);
    let mut loaded = vec![load_path(first)];
    let mut deleted = vec![];
    let mut next = 0;
    let mut event = CompactionEvent::Loaded(entries(kept));
    loop {
        assert!(compaction.accepts(&event));
        event = match compaction.step(event) {
            CompactionAction::Load { path } => {
                loaded.push(path);
                let list = metadata[next].as_ref().and_then(|paths| entries(paths));
                next += 1;
                CompactionEvent::Loaded(list)
            }
            CompactionAction::Delete { file } => {
                deleted.push(file);
                CompactionEvent::Deleted
            }
            CompactionAction::Finished { operator } => {
                assert_eq!(operator, "op");
                return (loaded, deleted);
            }
            CompactionAction::Fail => panic!("the compaction failed"),
        };
    }
}

#[test]
fn files_to_delete_are_neither_kept_nor_deleted_already() {
    let list = vec![file("a"), file("b"), file("c"), file("b"), file("d")];
    assert_eq!(
        files_to_delete(&list, &strings(&["c"]), &strings(&["d"])),
        strings(&["a", "b"])
    );
    assert_eq!(files_to_delete(&vec![], &vec![], &vec![]), Vec::<String>::new());
}

#[test]
fn kept_files_are_spared_and_others_deleted_once() {
    let (loaded, deleted) = compact(
        1,
        4,
        &["keep", "shared"],
        &[Some(vec!["a", "shared"]), None, Some(vec!["a", "b", "keep"])],
    );
    assert_eq!(
        loaded,
        strings(&[
            "job/checkpoints/checkpoint-0000004/operator-op/metadata",
            "job/checkpoints/checkpoint-0000001/operator-op/metadata",
            "job/checkpoints/checkpoint-0000002/operator-op/metadata",
            "job/checkpoints/checkpoint-0000003/operator-op/metadata",
        ])
    );
    assert_eq!(deleted, strings(&["a", "b"]));
}

#[test]
fn no_old_epochs_means_nothing_to_delete() {
    let (loaded, deleted) = compact(4, 4, &["keep"], &[]);
    assert_eq!(loaded.len(), 1);
    assert!(deleted.is_empty());
    let (loaded, deleted) = compact(7, 4, &["keep"], &[]);
    assert_eq!(loaded.len(), 1);
    assert!(deleted.is_empty());
}

#[test]
fn last_epoch_can_be_compacted() {
    let (loaded, deleted) = compact(u32::MAX - 1, u32::MAX, &[], &[Some(vec!["a"])]);
    assert_eq!(loaded[1], "job/checkpoints/checkpoint-4294967294/operator-op/metadata");
    assert_eq!(deleted, strings(&["a"]));
}

#[test]
fn a_failed_deletion_ends_the_compaction() {
    let (mut compaction, _) = operator_compaction(1, 2);
    compaction.step(CompactionEvent::Loaded(entries(&[])));
    let action = compaction.step(CompactionEvent::Loaded(entries(&["a", "b"])));
    assert!(matches!(action, CompactionAction::Delete { file } if file == "a"));
    assert!(matches!(compaction.step(CompactionEvent::DeleteFailed), CompactionAction::Fail));
    assert!(!compaction.accepts(&CompactionEvent::Deleted));
}

#[test]
fn a_compaction_takes_only_what_it_asked_for() {
    let (mut compaction, _) = operator_compaction(1, 2);
    assert!(!compaction.accepts(&CompactionEvent::Loaded(None)));
    assert!(!compaction.accepts(&CompactionEvent::Deleted));
    let foreign = vec![BackendData { backend_data: None }];
    assert!(!compaction.accepts(&CompactionEvent::Loaded(Some(foreign))));
    assert!(compaction.accepts(&CompactionEvent::Loaded(entries(&[]))));
    compaction.step(CompactionEvent::Loaded(entries(&[])));
    let foreign = vec![BackendData { backend_data: None }];
    assert!(!compaction.accepts(&CompactionEvent::Loaded(Some(foreign))));
    assert!(compaction.accepts(&CompactionEvent::Loaded(None)));
    assert!(!compaction.accepts(&CompactionEvent::DeleteFailed));
}

#[test]
fn old_metadata_is_listed_by_epoch() {
    assert_eq!(
        old_operator_metadata("job", "op", 1, 3),
        strings(&[
            "job/checkpoints/checkpoint-0000001/operator-op/metadata",
            "job/checkpoints/checkpoint-0000002/operator-op/metadata",
        ])
    );
    assert_eq!(
        old_checkpoint_metadata("job", 1, 3),
        strings(&[
            "job/checkpoints/checkpoint-0000001/metadata",
            "job/checkpoints/checkpoint-0000002/metadata",
        ])
    );
    assert!(old_operator_metadata("job", "op", 3, 3).is_empty());
    assert!(old_checkpoint_metadata("job", 4, 3).is_empty());
}

#[test]
fn compacted_metadata_differs_in_the_first_epoch_alone() {
    let metadata = compacted(job(&["a", "b"]), 5);
    assert_eq!(metadata.job_id, "job");
    assert_eq!(metadata.epoch, 9);
    assert_eq!(metadata.min_epoch, 5);
    assert_eq!(metadata.operator_ids, strings(&["a", "b"]));
    let copy = metadata.clone();
    assert_eq!(copy.min_epoch, 5);
    assert_eq!(copy.operator_ids, copy_strings(&strings(&["a", "b"])));
}

fn deleted_path(action: JobAction) -> String {
    match action {
        JobAction::Delete { path } => path,
        other => panic!("expected a deletion, not {:?}", other),
    }
}

#[test]
fn a_job_is_completed_after_all_metadata_is_gone() {
    let (mut compaction, first) = CheckpointCompaction::new(job(&["a", "b"]), 1, 3);
    assert!(matches!(first, JobAction::AwaitOperator));
    let mut gone = vec![];
    let mut action = compaction.step(JobEvent::OperatorCompacted("b".to_string()));
    gone.push(deleted_path(action));
    gone.push(deleted_path(compaction.step(JobEvent::Deleted)));
    action = compaction.step(JobEvent::Deleted);
    assert!(matches!(action, JobAction::AwaitOperator));
    gone.push(deleted_path(compaction.step(JobEvent::OperatorCompacted("a".to_string()))));
    gone.push(deleted_path(compaction.step(JobEvent::Deleted)));
    gone.push(deleted_path(compaction.step(JobEvent::Deleted)));
    gone.push(deleted_path(compaction.step(JobEvent::Deleted)));
    assert_eq!(
        gone,
        strings(&[
            "job/checkpoints/checkpoint-0000001/operator-b/metadata",
            "job/checkpoints/checkpoint-0000002/operator-b/metadata",
            "job/checkpoints/checkpoint-0000001/operator-a/metadata",
            "job/checkpoints/checkpoint-0000002/operator-a/metadata",
            "job/checkpoints/checkpoint-0000001/metadata",
            "job/checkpoints/checkpoint-0000002/metadata",
        ])
    );
    match compaction.step(JobEvent::Deleted) {
        JobAction::Complete(metadata) => {
            assert_eq!(metadata.min_epoch, 3);
            assert_eq!(metadata.epoch, 9);
            assert_eq!(metadata.operator_ids, strings(&["a", "b"]));
        }
        other => panic!("expected completion, not {:?}", other),
    }
    assert!(!compaction.accepts(&JobEvent::Deleted));
}

#[test]
fn a_job_without_operators_or_old_epochs_is_completed_at_once() {
    let (_, action) = CheckpointCompaction::new(job(&[]), 3, 3);
    assert!(matches!(action, JobAction::Complete(metadata) if metadata.min_epoch == 3));
    let (mut compaction, action) = CheckpointCompaction::new(job(&[]), 1, 2);
    assert_eq!(deleted_path(action), "job/checkpoints/checkpoint-0000001/metadata");
    assert!(matches!(compaction.step(JobEvent::Deleted), JobAction::Complete(_)));
    let (mut compaction, action) = CheckpointCompaction::new(job(&["a"]), 3, 3);
    assert!(matches!(action, JobAction::AwaitOperator));
    let action = compaction.step(JobEvent::OperatorCompacted("a".to_string()));
    assert!(matches!(action, JobAction::Complete(_)));
}

#[test]
fn a_job_gives_up_on_the_first_failure() {
    let (mut compaction, _) = CheckpointCompaction::new(job(&["a", "b"]), 1, 2);
    assert!(!compaction.accepts(&JobEvent::Deleted));
    assert!(compaction.accepts(&JobEvent::OperatorFailed));
    assert!(matches!(compaction.step(JobEvent::OperatorFailed), JobAction::Fail));
    assert!(!compaction.accepts(&JobEvent::OperatorCompacted("a".to_string())));

    let (mut compaction, _) = CheckpointCompaction::new(job(&["a"]), 1, 2);
    compaction.step(JobEvent::OperatorCompacted("a".to_string()));
    assert!(!compaction.accepts(&JobEvent::OperatorFailed));
    assert!(matches!(compaction.step(JobEvent::DeleteFailed), JobAction::Fail));
}

#[test]
fn a_job_takes_no_operator_that_it_does_not_await() {
    let compacted = |name: &str| JobEvent::OperatorCompacted(name.to_string());
    let (mut compaction, _) = CheckpointCompaction::new(job(&["a", "b"]), 3, 3);
    assert!(!compaction.accepts(&compacted("c")));
    assert!(compaction.accepts(&compacted("b")));
    assert!(matches!(compaction.step(compacted("b")), JobAction::AwaitOperator));
    assert!(!compaction.accepts(&compacted("b")));
    assert!(compaction.accepts(&compacted("a")));
    assert!(matches!(compaction.step(compacted("a")), JobAction::Complete(_)));
}

#[test]
fn an_operator_that_is_named_twice_is_awaited_twice() {
    let compacted = || JobEvent::OperatorCompacted("a".to_string());
    let (mut compaction, _) = CheckpointCompaction::new(job(&["a", "a"]), 3, 3);
    assert!(matches!(compaction.step(compacted()), JobAction::AwaitOperator));
    assert!(compaction.accepts(&compacted()));
    assert!(matches!(compaction.step(compacted()), JobAction::Complete(_)));
}

#[test]
fn a_job_compacts_each_of_its_operators() {
    let (compaction, _) = CheckpointCompaction::new(job(&["b", "a"]), 1, 3);
    let loads: Vec<String> = compaction
        .operator_compactions()
        .into_iter()
        .map(|(_, first)| load_path(first))
        .collect();
    assert_eq!(
        loads,
        strings(&[
            "job/checkpoints/checkpoint-0000003/operator-b/metadata",
            "job/checkpoints/checkpoint-0000003/operator-a/metadata",
        ])
    );
}
