use arroyo_state::decimal::push_zero_padded;
use arroyo_state::paths::{base_path, metadata_path, operator_path, table_checkpoint_path};
use arroyo_state::types::{KeyRange, TaskInfo};

fn task(job_id: &str, operator_id: &str, task_index: usize) -> TaskInfo {
    TaskInfo {
        job_id: job_id.to_string(),
        operator_id: operator_id.to_string(),
        task_index,
        key_range: KeyRange::all(),
    }
}

fn padded(n: u64, width: usize) -> String {
    let mut out = String::from("<");
    push_zero_padded(&mut out, n, width);
    out
}

#[test]
fn base_path_pads_the_epoch_to_seven_digits() {
    assert_eq!(base_path("job", 5), "job/checkpoints/checkpoint-0000005");
    assert_eq!(base_path("job", 0), "job/checkpoints/checkpoint-0000000");
    assert_eq!(base_path("job", 9_999_999), "job/checkpoints/checkpoint-9999999");
    assert_eq!(base_path("job", 10_000_000), "job/checkpoints/checkpoint-10000000");
    assert_eq!(base_path("", u32::MAX), "/checkpoints/checkpoint-4294967295");
}

#[test]
fn base_path_formats_like_std() {
    for epoch in [0, 1, 9, 10, 99, 100, 12_345, 999_999, 1_000_000, 123_456_789, u32::MAX] {
        assert_eq!(base_path("j", epoch), format!("{}/checkpoints/checkpoint-{:0>7}", "j", epoch));
    }
}

#[test]
fn metadata_path_is_a_file_in_the_directory() {
    assert_eq!(metadata_path("a/b"), "a/b/metadata");
    assert_eq!(metadata_path(""), "/metadata");
    assert_eq!(
        metadata_path(&base_path("job", 12)),
        "job/checkpoints/checkpoint-0000012/metadata"
    );
}

#[test]
fn operator_path_is_below_the_checkpoint() {
    assert_eq!(
        operator_path("job", 3, "window_1"),
        "job/checkpoints/checkpoint-0000003/operator-window_1"
    );
    assert_eq!(operator_path("job", 3, ""), "job/checkpoints/checkpoint-0000003/operator-");
}

#[test]
fn table_checkpoint_path_pads_the_index_to_three_digits() {
    assert_eq!(
        table_checkpoint_path(&task("job", "op", 3), 't', 5),
        "job/checkpoints/checkpoint-0000005/operator-op/table-t-003"
    );
    assert_eq!(
        table_checkpoint_path(&task("job", "op", 1234), 's', 1),
        "job/checkpoints/checkpoint-0000001/operator-op/table-s-1234"
    );
    assert_eq!(
        table_checkpoint_path(&task("job", "op", 0), 'é', 1),
        "job/checkpoints/checkpoint-0000001/operator-op/table-é-000"
    );
}

#[test]
fn numbers_are_padded_behind_what_is_there() {
    assert_eq!(padded(0, 0), "<0");
    assert_eq!(padded(0, 3), "<000");
    assert_eq!(padded(42, 5), "<00042");
    assert_eq!(padded(12345, 3), "<12345");
    assert_eq!(padded(u64::MAX, 4), format!("<{}", u64::MAX));
}

#[test]
fn different_numbers_have_different_padded_forms() {
    let numbers = [0u64, 1, 9, 10, 11, 99, 100, 101, 999, 1000, 10_000];
    for a in numbers {
        for b in numbers {
            assert_eq!(a == b, padded(a, 3) == padded(b, 3));
        }
    }
}

#[test]
fn different_data_files_lie_in_different_places() {
    let mut seen: Vec<String> = vec![];
    for operator in ["a", "a/table-t-000", "b"] {
        for index in [0usize, 1, 10, 100, 1000] {
            for table in ['t', '-', '0'] {
                for epoch in [1u32, 10, 10_000_000] {
                    let path = table_checkpoint_path(&task("job", operator, index), table, epoch);
                    assert!(!seen.contains(&path));
                    seen.push(path);
                }
            }
        }
    }
}

#[test]
fn metadata_files_are_apart_from_each_other_and_from_data() {
    let of_job = metadata_path(&base_path("job", 1));
    let of_operator = metadata_path(&operator_path("job", 1, "op"));
    let data = table_checkpoint_path(&task("job", "op", 0), 't', 1);
    assert_ne!(of_job, of_operator);
    assert_ne!(of_job, data);
    assert_ne!(of_operator, data);
    assert_ne!(metadata_path(&base_path("job", 1)), metadata_path(&base_path("job", 2)));
    assert_ne!(metadata_path(&base_path("job", 1)), metadata_path(&base_path("jobs", 1)));
}

#[test]
fn operators_of_different_jobs_can_share_a_directory() {
    assert_eq!(
        operator_path("a", 1, "x/checkpoints/checkpoint-0000001/operator-y"),
        operator_path("a/checkpoints/checkpoint-0000001/operator-x", 1, "y")
    );
}
