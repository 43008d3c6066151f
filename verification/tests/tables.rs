use arroyo_state::files::FileMap;
use arroyo_state::tables::{first_char, tables_named, TableIndex};
use arroyo_state::types::{
    parquet_files, BackendData, KeyRange, ParquetStoreData, TableDeleteBehavior, TableDescriptor,
    TableType,
};

fn table(name: &str, table_type: TableType) -> TableDescriptor {
    TableDescriptor {
        name: name.to_string(),
        table_type,
        delete_behavior: TableDeleteBehavior::Keep,
        retention_micros: 0,
    }
}

fn expiring(name: &str, retention_micros: u64) -> TableDescriptor {
    TableDescriptor {
        name: name.to_string(),
        table_type: TableType::TimeKeyMap,
        delete_behavior: TableDeleteBehavior::NoReadsBeforeWatermark,
        retention_micros,
    }
}

fn file(path: &str, table: &str, epoch: u32, max_timestamp_micros: u64) -> ParquetStoreData {
    ParquetStoreData {
        epoch,
        file: path.to_string(),
        table: table.to_string(),
        min_routing_key: 0,
        max_routing_key: u64::MAX,
        max_timestamp_micros,
        min_required_timestamp_micros: None,
    }
}

fn names(files: &[ParquetStoreData]) -> Vec<String> {
    files.iter().map(|f| f.file.clone()).collect()
}

#[test]
fn tables_are_found_by_the_first_character_of_their_name() {
    let index = TableIndex::from_tables(vec![
        table("window", TableType::TimeKeyMap),
        table("x", TableType::Global),
    ]);
    assert_eq!(index.get('w').unwrap().name, "window");
    assert_eq!(index.get('x').unwrap().table_type, TableType::Global);
    assert!(index.get('i').is_none());
    assert_eq!(index.get_code('w' as u32).unwrap().name, "window");
}

#[test]
fn the_last_table_of_a_character_counts() {
    let index = TableIndex::from_tables(vec![
        table("first", TableType::TimeKeyMap),
        table("f", TableType::Global),
    ]);
    assert_eq!(index.get('f').unwrap().name, "f");
    assert_eq!(index.descriptors().len(), 1);
}

#[test]
fn indexing_twice_changes_nothing() {
    let index = TableIndex::from_tables(vec![
        table("z", TableType::TimeKeyMap),
        table("é", TableType::Global),
        table("abc", TableType::KeyTimeMultiMap),
    ]);
    let names: Vec<String> = index.descriptors().into_iter().map(|t| t.name).collect();
    assert_eq!(names, vec!["abc".to_string(), "z".to_string(), "é".to_string()]);
    let again = TableIndex::from_tables(index.descriptors());
    let renamed: Vec<String> = again.descriptors().into_iter().map(|t| t.name).collect();
    assert_eq!(renamed, names);
}

#[test]
fn nameless_tables_are_noticed() {
    assert!(tables_named(&vec![]));
    assert!(tables_named(&vec![table("a", TableType::Global)]));
    assert!(!tables_named(&vec![table("a", TableType::Global), table("", TableType::Global)]));
    assert_eq!(first_char(&"état".to_string()), 'é');
}

#[test]
fn files_are_listed_by_epoch_and_then_in_order() {
    let mut files = FileMap::new();
    files.push('t', 7, file("late", "t", 7, 0));
    files.push('t', 2, file("early", "t", 2, 0));
    files.push('u', 1, file("other", "u", 1, 0));
    files.push('t', 2, file("early_too", "t", 2, 0));
    assert_eq!(files.paths('t'), vec!["early", "early_too", "late"]);
    assert_eq!(files.paths('u'), vec!["other"]);
    assert!(files.paths('v').is_empty());
    assert_eq!(files.clone().paths('t'), files.paths('t'));
}

#[test]
fn a_checkpoint_keeps_ordinary_files_under_its_own_epoch() {
    let index = TableIndex::from_tables(vec![table("t", TableType::TimeKeyMap)]);
    let mut files = FileMap::new();
    files.push('t', 1, file("a", "t", 1, 0));
    files.push('t', 2, file("b", "t", 2, 0));
    assert!(files.can_retain(&index, 3, Some(0)));
    assert_eq!(names(&files.retain(&index, 3, Some(0))), vec!["a", "b"]);
    files.push('t', 2, file("misfiled", "t", 2, 0));
    assert_eq!(files.paths('t'), vec!["misfiled", "a", "b"]);
}

#[test]
fn a_checkpoint_drops_the_earlier_files_of_global_tables() {
    let index = TableIndex::from_tables(vec![table("g", TableType::Global)]);
    let mut files = FileMap::new();
    files.push('g', 1, file("old", "g", 1, 0));
    files.push('g', 2, file("new", "g", 2, 0));
    assert_eq!(names(&files.retain(&index, 2, None)), vec!["new"]);
    assert_eq!(files.paths('g'), vec!["new"]);
    assert!(files.retain(&index, 3, None).is_empty());
    assert!(files.paths('g').is_empty());
}

#[test]
fn files_expire_once_they_are_older_than_the_retention_allows() {
    let index = TableIndex::from_tables(vec![expiring("t", 100)]);
    let mut files = FileMap::new();
    files.push('t', 1, file("expired", "t", 1, 899));
    files.push('t', 1, file("just_alive", "t", 1, 900));
    files.push('t', 1, file("alive", "t", 1, 5000));
    assert!(files.can_retain(&index, 2, Some(1000)));
    assert_eq!(names(&files.retain(&index, 2, Some(1000))), vec!["just_alive", "alive"]);
    assert_eq!(files.paths('t'), vec!["just_alive", "alive"]);
}

#[test]
fn nothing_expires_without_a_watermark() {
    let index = TableIndex::from_tables(vec![expiring("t", 100)]);
    let mut files = FileMap::new();
    files.push('t', 1, file("a", "t", 1, 0));
    assert!(files.can_retain(&index, 2, None));
    assert_eq!(names(&files.retain(&index, 2, None)), vec!["a"]);
}

#[test]
fn a_watermark_below_the_retention_decides_nothing() {
    let index = TableIndex::from_tables(vec![expiring("t", 100)]);
    let mut files = FileMap::new();
    assert!(files.can_retain(&index, 2, Some(99)));
    files.push('t', 1, file("a", "t", 1, 0));
    assert!(!files.can_retain(&index, 2, Some(99)));
    assert!(files.can_retain(&index, 2, Some(100)));
}

#[test]
fn files_of_unknown_tables_decide_nothing() {
    let index = TableIndex::from_tables(vec![expiring("t", 100)]);
    let mut files = FileMap::new();
    files.push('u', 1, file("a", "u", 1, 0));
    assert!(!files.can_retain(&index, 2, None));
}

#[test]
fn metadata_entries_stand_for_files_or_not() {
    let entry = BackendData { backend_data: Some(file("a", "t", 1, 0)) };
    let files = parquet_files(vec![entry]).unwrap();
    assert_eq!(names(&files), vec!["a"]);
    let entry = BackendData { backend_data: Some(file("a", "t", 1, 0)) };
    assert!(parquet_files(vec![entry, BackendData { backend_data: None }]).is_none());
}

#[test]
fn key_ranges_include_both_ends() {
    let range = KeyRange { start: 3, end: 5 };
    assert!(!range.contains(2));
    assert!(range.contains(3));
    assert!(range.contains(5));
    assert!(!range.contains(6));
    assert!(KeyRange::all().contains(0));
    assert!(KeyRange::all().contains(u64::MAX));
}
