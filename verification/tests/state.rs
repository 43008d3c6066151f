use std::collections::HashMap;

use arroyo_state::backend::{latest_values, ParquetBackend};
use arroyo_state::batch::{ParquetStats, RecordBatchBuilder};
use arroyo_state::columns::ColumnData;
use arroyo_state::flusher::{FlushAction, FlushError, FlushEvent, ParquetFlusher};
use arroyo_state::triples::{triples_from_bytes, triples_from_columns, DataTriple, DecodeError};
use arroyo_state::types::{
    BackendData, CheckpointBarrier, CheckpointCompleted, CheckpointMetadata, KeyRange,
    OperatorCheckpointMetadata, ParquetQueueItem, ParquetStoreData, TableDeleteBehavior,
    TableDescriptor, TableType, TaskInfo,
};

fn task(range: KeyRange) -> TaskInfo {
    TaskInfo {
        job_id: "job".to_string(),
        operator_id: "op".to_string(),
        task_index: 2,
        key_range: range,
    }
}

fn table(name: &str, table_type: TableType) -> TableDescriptor {
    TableDescriptor {
        name: name.to_string(),
        table_type,
        delete_behavior: TableDeleteBehavior::Keep,
        retention_micros: 0,
    }
}

fn tables() -> Vec<TableDescriptor> {
    vec![
        table("t", TableType::TimeKeyMap),
        table("g", TableType::Global),
        table("m", TableType::KeyTimeMultiMap),
    ]
}

fn barrier(epoch: u32, then_stop: bool) -> CheckpointBarrier {
    CheckpointBarrier { epoch, min_epoch: 1, timestamp: 1000, then_stop }
}

fn write(table: char, key_hash: u64, timestamp: u64, key: &str, value: &str) -> FlushEvent {
    let backend = ParquetBackend::new(&task(KeyRange::all()), tables());
    FlushEvent::Item(backend.write_data_triple(
        table,
        timestamp,
        key_hash,
        key.as_bytes().to_vec(),
        value.as_bytes().to_vec(),
    ))
}

/// Takes `events` with a storage that never fails and a clock that stands at 77.
fn drive(
    flusher: &mut ParquetFlusher,
    events: Vec<FlushEvent>,
    storage: &mut HashMap<String, Vec<u8>>,
) -> Vec<CheckpointCompleted> {
    let mut reports = vec![];
    for event in events {
        let mut next = Some(event);
        while let Some(event) = next {
            assert!(flusher.accepts(&event));
            next = match flusher.step(event) {
                FlushAction::Receive => None,
                FlushAction::Upload { key, contents } => {
                    assert!(storage.insert(key, contents).is_none());
                    Some(FlushEvent::Uploaded)
                }
                FlushAction::ReadClock => Some(FlushEvent::Clock(77)),
                FlushAction::Report { completed, .. } => {
                    reports.push(completed);
                    None
                }
                FlushAction::Stop => None,
                FlushAction::Fail(error) => panic!("the flusher failed: {:?}", error),
            };
        }
    }
    reports
}

fn metadata_at(epoch: u32) -> CheckpointMetadata {
    CheckpointMetadata {
        job_id: "job".to_string(),
        epoch,
        min_epoch: 1,
        operator_ids: vec!["op".to_string()],
    }
}

fn restart(completed: CheckpointCompleted, range: KeyRange) -> ParquetBackend {
    let metadata = metadata_at(completed.checkpoint_epoch);
    let operator_metadata = OperatorCheckpointMetadata {
        job_id: "job".to_string(),
        operator_id: "op".to_string(),
        epoch: completed.checkpoint_epoch,
        backend_data: completed.subtask_metadata.backend_data,
    };
    assert!(ParquetBackend::can_restore(&metadata, &operator_metadata, &tables()));
    ParquetBackend::from_checkpoint(&task(range), &metadata, operator_metadata, tables())
}

fn contents(
    backend: &ParquetBackend,
    table: char,
    storage: &HashMap<String, Vec<u8>>,
) -> Vec<Vec<u8>> {
    backend.table_files(table).iter().map(|path| storage[path].clone()).collect()
}

fn text(bytes: &[u8]) -> String {
    String::from_utf8(bytes.to_vec()).unwrap()
}

fn shown(triples: Vec<DataTriple>) -> Vec<(u64, String, String)> {
    triples.iter().map(|t| (t.timestamp, text(&t.key), text(&t.value))).collect()
}

fn triple(timestamp: u64, key: &str, value: &str) -> (u64, String, String) {
    (timestamp, key.to_string(), value.to_string())
}

#[test]
fn the_backend_is_called_parquet() {
    assert_eq!(ParquetBackend::name(), "parquet");
}

#[test]
fn a_new_backend_starts_at_epoch_one() {
    let backend = ParquetBackend::new(&task(KeyRange::all()), tables());
    assert_eq!(backend.epoch(), 1);
    assert_eq!(backend.min_epoch(), 1);
    assert!(backend.table_files('t').is_empty());
    assert!(backend.has_data_triples('t'));
    assert!(backend.has_data_triples('m'));
    assert!(!backend.has_data_triples('g'));
    assert!(!backend.has_data_triples('z'));
}

#[test]
fn a_checkpoint_takes_the_backend_to_the_next_epoch() {
    let mut backend = ParquetBackend::new(&task(KeyRange::all()), tables());
    let barrier = CheckpointBarrier { epoch: 1, min_epoch: 4, timestamp: 55, then_stop: true };
    let (item, epoch) = backend.checkpoint(barrier, Some(9));
    assert_eq!(epoch, 1);
    assert_eq!(backend.epoch(), 2);
    assert_eq!(backend.min_epoch(), 4);
    match item {
        ParquetQueueItem::Checkpoint(checkpoint) => {
            assert_eq!(checkpoint.epoch, 1);
            assert_eq!(checkpoint.time, 55);
            assert_eq!(checkpoint.watermark, Some(9));
            assert!(checkpoint.then_stop);
        }
        other => panic!("expected a checkpoint, not {:?}", other),
    }
}

#[test]
fn writes_are_handed_on_as_they_are() {
    let backend = ParquetBackend::new(&task(KeyRange::all()), tables());
    match backend.write_data_triple('t', 12, 34, vec![1], vec![2, 3]) {
        ParquetQueueItem::Write(w) => {
            assert_eq!((w.table, w.timestamp, w.key_hash), ('t', 12, 34));
            assert_eq!((w.key, w.data), (vec![1], vec![2, 3]));
        }
        other => panic!("expected a write, not {:?}", other),
    }
    match backend.write_key_value('g', 34, vec![1], vec![2]) {
        ParquetQueueItem::Write(w) => {
            assert_eq!((w.table, w.timestamp, w.key_hash), ('g', 0, 34));
            assert_eq!((w.key, w.data), (vec![1], vec![2]));
        }
        other => panic!("expected a write, not {:?}", other),
    }
}

#[test]
fn what_is_written_is_read_back_after_a_restart() {
    let mut storage = HashMap::new();
    let mut backend = ParquetBackend::new(&task(KeyRange::all()), tables());
    let mut flusher = backend.flusher();
    let (item, _) = backend.checkpoint(barrier(1, false), None);
    let reports = drive(
        &mut flusher,
        vec![
            write('t', 10, 100, "a", "1"),
            write('m', 5, 7, "x", "y"),
            write('t', 20, 50, "b", "2"),
            write('t', 30, 200, "a", "3"),
            FlushEvent::Item(item),
        ],
        &mut storage,
    );
    let completed = reports.into_iter().next().unwrap();
    let restarted = restart(completed, KeyRange::all());
    assert_eq!(restarted.epoch(), 2);
    assert_eq!(
        restarted.table_files('t'),
        vec!["job/checkpoints/checkpoint-0000001/operator-op/table-t-002"]
    );
    let files = contents(&restarted, 't', &storage);
    assert_eq!(
        shown(restarted.get_data_triples('t', &files).unwrap()),
        vec![triple(100, "a", "1"), triple(50, "b", "2"), triple(200, "a", "3")]
    );
    let files = contents(&restarted, 'm', &storage);
    assert_eq!(
        shown(restarted.get_data_triples('m', &files).unwrap()),
        vec![triple(7, "x", "y")]
    );
    assert!(contents(&restarted, 'g', &storage).is_empty());
}

#[test]
fn a_checkpoint_reports_its_files_and_their_bounds() {
    let mut storage = HashMap::new();
    let mut backend = ParquetBackend::new(&task(KeyRange::all()), tables());
    let mut flusher = backend.flusher();
    let (item, _) = backend.checkpoint(barrier(1, false), Some(42));
    let reports = drive(
        &mut flusher,
        vec![
            write('t', 10, 100, "a", "1"),
            write('t', 7, 300, "b", "2"),
            write('t', 30, 200, "c", "3"),
            FlushEvent::Item(item),
        ],
        &mut storage,
    );
    let completed = reports.into_iter().next().unwrap();
    assert_eq!(completed.checkpoint_epoch, 1);
    assert_eq!(completed.operator_id, "op");
    let subtask = completed.subtask_metadata;
    assert_eq!(subtask.subtask_index, 2);
    assert_eq!(subtask.start_time, 1000);
    assert_eq!(subtask.finish_time, 77);
    assert!(subtask.has_state);
    assert_eq!(subtask.watermark, Some(42));
    let names: Vec<&str> = subtask.tables.iter().map(|t| t.name.as_str()).collect();
    assert_eq!(names, vec!["g", "m", "t"]);
    let path = "job/checkpoints/checkpoint-0000001/operator-op/table-t-002";
    assert_eq!(subtask.bytes, storage[path].len() as u64);
    assert_eq!(subtask.backend_data.len(), 1);
    let file = subtask.backend_data[0].backend_data.as_ref().unwrap();
    assert_eq!(file.epoch, 1);
    assert_eq!(file.file, path);
    assert_eq!(file.table, "t");
    assert_eq!(file.min_routing_key, 7);
    assert_eq!(file.max_routing_key, 30);
    assert_eq!(file.max_timestamp_micros, 300);
    assert_eq!(file.min_required_timestamp_micros, None);
}

#[test]
fn a_checkpoint_without_writes_has_no_state() {
    let mut storage = HashMap::new();
    let mut backend = ParquetBackend::new(&task(KeyRange::all()), tables());
    let mut flusher = backend.flusher();
    let (item, _) = backend.checkpoint(barrier(1, false), None);
    let reports = drive(&mut flusher, vec![FlushEvent::Item(item)], &mut storage);
    assert!(storage.is_empty());
    assert!(!reports[0].subtask_metadata.has_state);
    assert_eq!(reports[0].subtask_metadata.bytes, 0);
    assert!(reports[0].subtask_metadata.backend_data.is_empty());
}

#[test]
fn rows_add_up_over_checkpoints_and_global_tables_are_replaced() {
    let mut storage = HashMap::new();
    let mut backend = ParquetBackend::new(&task(KeyRange::all()), tables());
    let mut flusher = backend.flusher();
    let (first, _) = backend.checkpoint(barrier(1, false), None);
    let (second, _) = backend.checkpoint(barrier(2, false), None);
    let reports = drive(
        &mut flusher,
        vec![
            write('t', 1, 1, "a", "old"),
            write('g', 1, 0, "a", "old"),
            write('g', 2, 0, "b", "old"),
            FlushEvent::Item(first),
            write('t', 1, 2, "a", "new"),
            write('g', 1, 0, "a", "new"),
            FlushEvent::Item(second),
        ],
        &mut storage,
    );
    let restarted = restart(reports.into_iter().last().unwrap(), KeyRange::all());
    assert_eq!(
        restarted.table_files('t'),
        vec![
            "job/checkpoints/checkpoint-0000001/operator-op/table-t-002",
            "job/checkpoints/checkpoint-0000002/operator-op/table-t-002",
        ]
    );
    let files = contents(&restarted, 't', &storage);
    let pairs = restarted.get_key_values(&files).unwrap();
    assert_eq!(
        pairs,
        vec![(b"a".to_vec(), b"old".to_vec()), (b"a".to_vec(), b"new".to_vec())]
    );
    assert_eq!(
        restarted.table_files('g'),
        vec!["job/checkpoints/checkpoint-0000002/operator-op/table-g-002"]
    );
    let files = contents(&restarted, 'g', &storage);
    assert_eq!(
        restarted.get_global_key_values(&files).unwrap(),
        vec![(b"a".to_vec(), b"new".to_vec())]
    );
}

#[test]
fn a_subtask_reads_its_own_range_of_keys() {
    let mut storage = HashMap::new();
    let mut backend = ParquetBackend::new(&task(KeyRange::all()), tables());
    let mut flusher = backend.flusher();
    let (first, _) = backend.checkpoint(barrier(1, false), None);
    let (second, _) = backend.checkpoint(barrier(2, false), None);
    let reports = drive(
        &mut flusher,
        vec![
            write('t', 10, 1, "low", "1"),
            write('t', 20, 2, "high", "2"),
            write('g', 99, 0, "far", "3"),
            FlushEvent::Item(first),
            write('t', 30, 3, "higher", "4"),
            write('g', 99, 0, "far", "5"),
            FlushEvent::Item(second),
        ],
        &mut storage,
    );
    let range = KeyRange { start: 20, end: 29 };
    let restarted = restart(reports.into_iter().last().unwrap(), range);
    assert_eq!(restarted.table_files('t').len(), 1);
    let files = contents(&restarted, 't', &storage);
    assert_eq!(
        shown(restarted.get_data_triples('t', &files).unwrap()),
        vec![triple(2, "high", "2")]
    );
    assert_eq!(restarted.table_files('g').len(), 1);
    let files = contents(&restarted, 'g', &storage);
    assert_eq!(
        restarted.get_global_key_values(&files).unwrap(),
        vec![(b"far".to_vec(), b"5".to_vec())]
    );
    assert!(restarted.get_key_values(&files).unwrap().is_empty());
}

#[test]
fn many_rows_come_back_in_order() {
    let mut storage = HashMap::new();
    let mut backend = ParquetBackend::new(&task(KeyRange::all()), tables());
    let mut flusher = backend.flusher();
    let (item, _) = backend.checkpoint(barrier(1, true), None);
    let mut events: Vec<FlushEvent> = (0..3000u64)
        .map(|i| write('t', i % 7, i, &format!("key{}", i), &format!("value{}", i * i)))
        .collect();
    events.push(FlushEvent::Item(item));
    let reports = drive(&mut flusher, events, &mut storage);
    assert!(!flusher.accepts(&FlushEvent::Closed));
    let restarted = restart(reports.into_iter().next().unwrap(), KeyRange { start: 3, end: 4 });
    let files = contents(&restarted, 't', &storage);
    let expected: Vec<(u64, String, String)> = (0..3000u64)
        .filter(|i| i % 7 == 3 || i % 7 == 4)
        .map(|i| (i, format!("key{}", i), format!("value{}", i * i)))
        .collect();
    assert_eq!(shown(restarted.get_data_triples('t', &files).unwrap()), expected);
}

#[test]
fn extreme_values_come_back_unchanged() {
    let mut storage = HashMap::new();
    let mut backend = ParquetBackend::new(&task(KeyRange::all()), tables());
    let mut flusher = backend.flusher();
    let (item, _) = backend.checkpoint(barrier(1, false), None);
    drive(
        &mut flusher,
        vec![
            write('t', u64::MAX, u64::MAX, "", ""),
            write('t', 0, 0, "k", ""),
            write('t', 1 << 63, 1 << 63, "", "v"),
            FlushEvent::Item(item),
        ],
        &mut storage,
    );
    let bytes = &storage["job/checkpoints/checkpoint-0000001/operator-op/table-t-002"];
    assert_eq!(
        shown(triples_from_bytes(bytes, &KeyRange::all()).unwrap()),
        vec![triple(u64::MAX, "", ""), triple(0, "k", ""), triple(1 << 63, "", "v")]
    );
    assert_eq!(
        shown(triples_from_bytes(bytes, &KeyRange { start: 1 << 63, end: u64::MAX }).unwrap()),
        vec![triple(u64::MAX, "", ""), triple(1 << 63, "", "v")]
    );
}

#[test]
fn expired_files_are_dropped_at_a_checkpoint() {
    let mut storage = HashMap::new();
    let expiring = vec![TableDescriptor {
        name: "t".to_string(),
        table_type: TableType::TimeKeyMap,
        delete_behavior: TableDeleteBehavior::NoReadsBeforeWatermark,
        retention_micros: 10,
    }];
    let mut backend = ParquetBackend::new(&task(KeyRange::all()), expiring);
    let mut flusher = backend.flusher();
    let (first, _) = backend.checkpoint(barrier(1, false), Some(100));
    let (second, _) = backend.checkpoint(barrier(2, false), Some(111));
    let (third, _) = backend.checkpoint(barrier(3, false), Some(5));
    let reports = drive(
        &mut flusher,
        vec![
            write('t', 1, 100, "a", "1"),
            FlushEvent::Item(first),
            write('t', 1, 101, "b", "2"),
            FlushEvent::Item(second),
        ],
        &mut storage,
    );
    assert_eq!(reports[0].subtask_metadata.backend_data.len(), 1);
    let kept = &reports[1].subtask_metadata.backend_data;
    assert_eq!(kept.len(), 1);
    assert_eq!(kept[0].backend_data.as_ref().unwrap().epoch, 2);
    assert!(matches!(flusher.step(FlushEvent::Item(third)), FlushAction::ReadClock));
    assert!(!flusher.accepts(&FlushEvent::Clock(0)));
}

#[test]
fn a_flusher_takes_only_what_it_asked_for() {
    let mut backend = ParquetBackend::new(&task(KeyRange::all()), tables());
    let mut flusher = backend.flusher();
    assert!(!flusher.accepts(&FlushEvent::Uploaded));
    assert!(!flusher.accepts(&FlushEvent::Clock(1)));
    assert!(flusher.accepts(&FlushEvent::Closed));
    let (item, _) = backend.checkpoint(barrier(1, false), None);
    assert!(matches!(flusher.step(write('t', 1, 1, "a", "b")), FlushAction::Receive));
    assert!(matches!(flusher.step(FlushEvent::Item(item)), FlushAction::Upload { .. }));
    assert!(!flusher.accepts(&FlushEvent::Closed));
    assert!(!flusher.accepts(&write('t', 1, 1, "a", "b")));
    assert!(flusher.accepts(&FlushEvent::Uploaded));
    assert!(matches!(
        flusher.step(FlushEvent::UploadFailed),
        FlushAction::Fail(FlushError::Upload)
    ));
    assert!(!flusher.accepts(&FlushEvent::Uploaded));
    assert_ne!(FlushError::Encode, FlushError::Upload);
}

#[test]
fn a_closed_queue_stops_the_flusher() {
    let backend = ParquetBackend::new(&task(KeyRange::all()), tables());
    let mut flusher = backend.flusher();
    assert!(matches!(flusher.step(FlushEvent::Closed), FlushAction::Stop));
    assert!(!flusher.accepts(&FlushEvent::Closed));
}

#[test]
fn a_write_to_an_unknown_table_cannot_be_reported() {
    let mut storage: HashMap<String, Vec<u8>> = HashMap::new();
    let mut backend = ParquetBackend::new(&task(KeyRange::all()), tables());
    let mut flusher = backend.flusher();
    let (item, _) = backend.checkpoint(barrier(1, false), None);
    drive(&mut flusher, vec![write('?', 1, 1, "a", "b")], &mut storage);
    assert!(matches!(flusher.step(FlushEvent::Item(item)), FlushAction::Upload { .. }));
    assert!(matches!(flusher.step(FlushEvent::Uploaded), FlushAction::ReadClock));
    assert!(!flusher.accepts(&FlushEvent::Clock(1)));
}

fn stored(path: &str, table: &str, epoch: u32, keys: (u64, u64)) -> BackendData {
    BackendData {
        backend_data: Some(ParquetStoreData {
            epoch,
            file: path.to_string(),
            table: table.to_string(),
            min_routing_key: keys.0,
            max_routing_key: keys.1,
            max_timestamp_micros: 0,
            min_required_timestamp_micros: None,
        }),
    }
}

fn operator_metadata(backend_data: Vec<BackendData>) -> OperatorCheckpointMetadata {
    OperatorCheckpointMetadata {
        job_id: "job".to_string(),
        operator_id: "op".to_string(),
        epoch: 5,
        backend_data,
    }
}

#[test]
fn a_restart_takes_over_what_overlaps_the_range() {
    let list = vec![
        stored("below", "t", 1, (0, 9)),
        stored("at_start", "t", 4, (0, 10)),
        stored("inside", "table", 3, (12, 13)),
        stored("at_end", "t", 3, (20, 40)),
        stored("above", "t", 1, (21, 40)),
        stored("around", "t", 2, (0, u64::MAX)),
        stored("global", "g", 1, (21, 40)),
        stored("empty", "t", 2, (u64::MAX, 0)),
    ];
    let metadata = metadata_at(5);
    let backend = ParquetBackend::from_checkpoint(
        &task(KeyRange { start: 10, end: 20 }),
        &metadata,
        operator_metadata(list),
        tables(),
    );
    assert_eq!(backend.epoch(), 6);
    assert_eq!(backend.table_files('t'), vec!["around", "inside", "at_end", "at_start"]);
    assert_eq!(backend.table_files('g'), vec!["global"]);
}

#[test]
fn not_every_checkpoint_can_be_started_from() {
    let good = || operator_metadata(vec![stored("a", "t", 1, (0, 9))]);
    assert!(ParquetBackend::can_restore(&metadata_at(5), &good(), &tables()));
    assert!(!ParquetBackend::can_restore(&metadata_at(u32::MAX), &good(), &tables()));
    assert!(!ParquetBackend::can_restore(
        &metadata_at(5),
        &good(),
        &vec![table("t", TableType::Global), table("", TableType::Global)],
    ));
    assert!(!ParquetBackend::can_restore(
        &metadata_at(5),
        &good(),
        &vec![table("u", TableType::Global)],
    ));
    let foreign = operator_metadata(vec![BackendData { backend_data: None }]);
    assert!(!ParquetBackend::can_restore(&metadata_at(5), &foreign, &tables()));
    let nameless = operator_metadata(vec![stored("a", "", 1, (0, 9))]);
    assert!(!ParquetBackend::can_restore(&metadata_at(5), &nameless, &tables()));
}

fn some_rows() -> RecordBatchBuilder {
    let mut rows = RecordBatchBuilder::default();
    rows.insert(5, 50, b"a".to_vec(), b"1".to_vec());
    rows.insert(15, 60, b"b".to_vec(), b"2".to_vec());
    rows.insert(10, 70, b"a".to_vec(), b"3".to_vec());
    rows
}

#[test]
fn rows_that_are_read_back_are_those_that_were_written() {
    let backend = ParquetBackend::new(&task(KeyRange { start: 5, end: 10 }), tables());
    let found = backend.read_back('t', some_rows()).unwrap();
    assert_eq!(
        shown(found.data_triples.unwrap()),
        vec![triple(50, "a", "1"), triple(70, "a", "3")]
    );
    assert_eq!(
        found.key_values,
        vec![(b"a".to_vec(), b"1".to_vec()), (b"a".to_vec(), b"3".to_vec())]
    );
    assert_eq!(
        found.global_key_values,
        vec![
            (b"a".to_vec(), b"1".to_vec()),
            (b"b".to_vec(), b"2".to_vec()),
            (b"a".to_vec(), b"3".to_vec()),
        ]
    );
}

#[test]
fn global_tables_read_back_pairs_alone() {
    let backend = ParquetBackend::new(&task(KeyRange { start: 6, end: 9 }), tables());
    let found = backend.read_back('g', some_rows()).unwrap();
    assert!(found.data_triples.is_none());
    assert!(found.key_values.is_empty());
    assert_eq!(found.global_key_values.len(), 3);
}

#[test]
fn no_rows_read_back_as_none() {
    let backend = ParquetBackend::new(&task(KeyRange::all()), tables());
    let found = backend.read_back('t', RecordBatchBuilder::default()).unwrap();
    assert!(found.data_triples.unwrap().is_empty());
    assert!(found.key_values.is_empty());
    assert!(found.global_key_values.is_empty());
}

#[test]
fn no_files_give_no_state() {
    let backend = ParquetBackend::new(&task(KeyRange::all()), tables());
    assert!(backend.get_data_triples('t', &vec![]).unwrap().is_empty());
    assert!(backend.get_key_values(&vec![]).unwrap().is_empty());
    assert!(backend.get_global_key_values(&vec![]).unwrap().is_empty());
}

fn columns() -> Vec<ColumnData> {
    vec![
        ColumnData::UInt64(vec![1, 2, 3]),
        ColumnData::TimestampMicros(vec![10, -1, 30]),
        ColumnData::Binary(vec![b"a".to_vec(), b"b".to_vec(), b"c".to_vec()]),
        ColumnData::Binary(vec![b"x".to_vec(), b"y".to_vec(), b"z".to_vec()]),
    ]
}

#[test]
fn columns_give_the_rows_in_the_range() {
    let range = KeyRange { start: 2, end: 3 };
    assert_eq!(
        shown(triples_from_columns(&columns(), &range).unwrap()),
        vec![triple(u64::MAX, "b", "y"), triple(30, "c", "z")]
    );
    let mut wider = columns();
    wider.push(ColumnData::Other);
    assert_eq!(triples_from_columns(&wider, &KeyRange::all()).unwrap().len(), 3);
}

#[test]
fn columns_of_other_types_are_refused() {
    for index in 0..4 {
        let mut wrong = columns();
        wrong[index] = ColumnData::Other;
        assert!(matches!(
            triples_from_columns(&wrong, &KeyRange::all()),
            Err(DecodeError::UnexpectedColumn(i)) if i == index
        ));
        let mut short = columns();
        short.truncate(index);
        assert!(matches!(
            triples_from_columns(&short, &KeyRange::all()),
            Err(DecodeError::UnexpectedColumn(i)) if i == index
        ));
    }
}

#[test]
fn statistics_start_out_empty() {
    let stats = ParquetStats::default();
    assert_eq!(stats.max_timestamp, 0);
    assert_eq!(stats.min_routing_key, u64::MAX);
    assert_eq!(stats.max_routing_key, 0);
}

#[test]
fn statistics_bound_the_rows() {
    let mut builder = RecordBatchBuilder::default();
    builder.insert(5, 9, vec![1], vec![]);
    builder.insert(3, 2, vec![1], vec![]);
    builder.insert(8, 4, vec![1], vec![]);
    let (_, stats) = builder.flush().unwrap();
    assert_eq!(
        stats,
        ParquetStats { max_timestamp: 9, min_routing_key: 3, max_routing_key: 8 }
    );
    assert!(RecordBatchBuilder::default().flush().is_none());
}

#[test]
fn a_builder_has_room_for_ordinary_rows() {
    let mut builder = RecordBatchBuilder::default();
    assert!(builder.fits(&vec![], &vec![]));
    builder.insert(1, 1, vec![0; 1000], vec![0; 2000]);
    assert!(builder.fits(&vec![0; 1000], &vec![0; 2000]));
}

#[test]
fn the_schema_names_four_columns() {
    let schema = RecordBatchBuilder::default().schema();
    let names: Vec<&str> = schema.fields().iter().map(|f| f.name().as_str()).collect();
    assert_eq!(names, vec!["key_hash", "start_time", "key_bytes", "aggregate_bytes"]);
    assert!(schema.fields().iter().all(|f| !f.is_nullable()));
    assert_eq!(schema.field(0).data_type(), &arrow_schema::DataType::UInt64);
    assert_eq!(
        schema.field(1).data_type(),
        &arrow_schema::DataType::Timestamp(arrow_schema::TimeUnit::Microsecond, None)
    );
    assert_eq!(schema.field(2).data_type(), &arrow_schema::DataType::Binary);
    assert_eq!(schema.field(3).data_type(), &arrow_schema::DataType::Binary);
    assert!(schema.metadata().is_empty());
}

#[test]
fn the_last_value_of_a_key_counts() {
    let state = latest_values(vec![(1u64, "a"), (2, "b"), (1, "c")]);
    assert_eq!(state.len(), 2);
    assert_eq!(state[&1], "c");
    assert_eq!(state[&2], "b");
    assert!(latest_values::<u64, u64>(vec![]).is_empty());
}
