use arroyo_state::storage::{get_storage_env_vars, storage_error, storage_url};

#[test]
fn storage_defaults_to_a_local_directory() {
    assert_eq!(storage_url(None), "file:///tmp/arroyo");
    assert_eq!(storage_url(Some("s3://bucket/path".to_string())), "s3://bucket/path");
    assert_eq!(storage_url(Some(String::new())), "");
}

#[test]
fn storage_errors_name_the_url() {
    assert_eq!(
        storage_error("s3://bucket"),
        "failed to construct checkpoint backend for URL s3://bucket"
    );
}

#[test]
fn only_variables_that_are_set_are_handed_on() {
    let variables = vec![
        ("S3_REGION".to_string(), Some("us-west-2".to_string())),
        ("S3_ENDPOINT".to_string(), None),
        ("CHECKPOINT_URL".to_string(), Some(String::new())),
    ];
    assert_eq!(
        get_storage_env_vars(variables),
        vec![
            ("S3_REGION".to_string(), "us-west-2".to_string()),
            ("CHECKPOINT_URL".to_string(), String::new()),
        ]
    );
}

#[test]
fn no_variables_give_no_settings() {
    assert!(get_storage_env_vars(vec![]).is_empty());
    assert!(get_storage_env_vars(vec![("S3_REGION".to_string(), None)]).is_empty());
}
