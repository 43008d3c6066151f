//! The plain values that the checkpoint logic works on.
use vstd::prelude::*;

verus! {

/// The range of routing keys that one subtask owns, both ends included.
#[derive(Clone, Copy, Debug, PartialEq, Eq, Structural)]
pub struct KeyRange {
    pub start: u64,
    pub end: u64,
}

impl KeyRange {
    /// Whether `key` lies in the range.
    pub open spec fn spec_contains(self, key: u64) -> bool {
        self.start <= key <= self.end
    }

    /// The range of all routing keys.
    pub fn all() -> (range: KeyRange)
        ensures
            range == (KeyRange { start: 0, end: u64::MAX }),
    {
        KeyRange { start: 0, end: u64::MAX }
    }

    /// Whether `key` lies in the range.
    pub fn contains(&self, key: u64) -> (inside: bool)
        ensures
            inside == self.spec_contains(key),
    {
        self.start <= key && key <= self.end
    }
}

/// One subtask of one operator of a job.
#[derive(Debug)]
pub struct TaskInfo {
    pub job_id: String,
    pub operator_id: String,
    pub task_index: usize,
    pub key_range: KeyRange,
}

/// What a [`TaskInfo`] says, over mathematical values.
pub struct Task {
    pub job_id: Seq<char>,
    pub operator_id: Seq<char>,
    pub task_index: usize,
    pub key_range: KeyRange,
}

impl View for TaskInfo {
    type V = Task;

    open spec fn view(&self) -> Task {
        Task {
            job_id: self.job_id@,
            operator_id: self.operator_id@,
            task_index: self.task_index,
            key_range: self.key_range,
        }
    }
}

impl Clone for TaskInfo {
    fn clone(&self) -> (copy: Self)
        ensures
            copy == *self,
    {
        TaskInfo {
            job_id: self.job_id.clone(),
            operator_id: self.operator_id.clone(),
            task_index: self.task_index,
            key_range: self.key_range,
        }
    }
}

/// How the entries of a table are addressed.
#[derive(Clone, Copy, Debug, PartialEq, Eq, Structural)]
pub enum TableType {
    Global,
    TimeKeyMap,
    KeyTimeMultiMap,
}

/// When the entries of a table may be dropped.
#[derive(Clone, Copy, Debug, PartialEq, Eq, Structural)]
pub enum TableDeleteBehavior {
    /// Entries are kept for as long as their file is.
    Keep,
    /// Nothing older than the watermark, less the table's retention, is read again.
    NoReadsBeforeWatermark,
}

/// One table of an operator. The first character of its name identifies it.
#[derive(Debug)]
pub struct TableDescriptor {
    pub name: String,
    pub table_type: TableType,
    pub delete_behavior: TableDeleteBehavior,
    pub retention_micros: u64,
}

/// What a [`TableDescriptor`] says, over mathematical values.
pub struct Table {
    pub name: Seq<char>,
    pub table_type: TableType,
    pub delete_behavior: TableDeleteBehavior,
    pub retention_micros: u64,
}

impl View for TableDescriptor {
    type V = Table;

    open spec fn view(&self) -> Table {
        Table {
            name: self.name@,
            table_type: self.table_type,
            delete_behavior: self.delete_behavior,
            retention_micros: self.retention_micros,
        }
    }
}

impl Clone for TableDescriptor {
    fn clone(&self) -> (copy: Self)
        ensures
            copy == *self,
    {
        TableDescriptor {
            name: self.name.clone(),
            table_type: self.table_type,
            delete_behavior: self.delete_behavior,
            retention_micros: self.retention_micros,
        }
    }
}

/// What a list of tables says, over mathematical values.
pub open spec fn table_views(tables: Seq<TableDescriptor>) -> Seq<Table> {
    tables.map_values(|t: TableDescriptor| t@)
}

/// One state file of a checkpoint: where it lies, which table it belongs to, and the bounds
/// of what it holds.
#[derive(Debug)]
pub struct ParquetStoreData {
    pub epoch: u32,
    pub file: String,
    pub table: String,
    pub min_routing_key: u64,
    pub max_routing_key: u64,
    pub max_timestamp_micros: u64,
    pub min_required_timestamp_micros: Option<u64>,
}

/// What a [`ParquetStoreData`] says, over mathematical values.
pub struct StoredFile {
    pub epoch: u32,
    pub file: Seq<char>,
    pub table: Seq<char>,
    pub min_routing_key: u64,
    pub max_routing_key: u64,
    pub max_timestamp_micros: u64,
    pub min_required_timestamp_micros: Option<u64>,
}

impl View for ParquetStoreData {
    type V = StoredFile;

    open spec fn view(&self) -> StoredFile {
        StoredFile {
            epoch: self.epoch,
            file: self.file@,
            table: self.table@,
            min_routing_key: self.min_routing_key,
            max_routing_key: self.max_routing_key,
            max_timestamp_micros: self.max_timestamp_micros,
            min_required_timestamp_micros: self.min_required_timestamp_micros,
        }
    }
}

impl Clone for ParquetStoreData {
    fn clone(&self) -> (copy: Self)
        ensures
            copy == *self,
    {
        ParquetStoreData {
            epoch: self.epoch,
            file: self.file.clone(),
            table: self.table.clone(),
            min_routing_key: self.min_routing_key,
            max_routing_key: self.max_routing_key,
            max_timestamp_micros: self.max_timestamp_micros,
            min_required_timestamp_micros: self.min_required_timestamp_micros,
        }
    }
}

/// What a list of files says, over mathematical values.
pub open spec fn file_views(files: Seq<ParquetStoreData>) -> Seq<StoredFile> {
    files.map_values(|f: ParquetStoreData| f@)
}

/// Where the given files lie.
pub open spec fn paths_of(files: Seq<StoredFile>) -> Seq<Seq<char>> {
    files.map_values(|f: StoredFile| f.file)
}

/// The characters of each of the given strings.
pub open spec fn string_views(strings: Seq<String>) -> Seq<Seq<char>> {
    strings.map_values(|s: String| s@)
}

/// One entry of the metadata of a checkpoint. The only kind of entry that is known here is a
/// state file.
#[derive(Debug)]
pub struct BackendData {
    pub backend_data: Option<ParquetStoreData>,
}

/// The file that an entry stands for.
pub open spec fn entry_view(entry: BackendData) -> Option<StoredFile> {
    match entry.backend_data {
        Some(file) => Some(file@),
        None => None,
    }
}

/// The files that the entries of a checkpoint's metadata stand for.
pub open spec fn entry_views(entries: Seq<BackendData>) -> Seq<Option<StoredFile>> {
    entries.map_values(|e: BackendData| entry_view(e))
}

/// Whether every entry stands for a state file.
pub open spec fn all_parquet(entries: Seq<BackendData>) -> bool {
    forall|i: int| 0 <= i < entries.len() ==> (#[trigger] entries[i]).backend_data is Some
}

/// The files of entries that all stand for one.
pub open spec fn parquet_views(entries: Seq<BackendData>) -> Seq<StoredFile> {
    entries.map_values(|e: BackendData| e.backend_data->0@)
}

/// The state files that the entries of a checkpoint's metadata stand for, or `None` where
/// some entry stands for none.
pub fn parquet_files(entries: Vec<BackendData>) -> (files: Option<Vec<ParquetStoreData>>)
    ensures
        match files {
            Some(f) => all_parquet(entries@) && file_views(f@) == parquet_views(entries@),
            None => !all_parquet(entries@),
        },
{
    let mut files: Vec<ParquetStoreData> = Vec::new();
    for entry in it: entries
        invariant
            it.seq() == entries@,
            files@.len() == it.index(),
            forall|i: int|
                0 <= i < it.index() ==> (#[trigger] entries@[i]).backend_data is Some
                    && entries@[i].backend_data->0@ == files@[i]@,
    {
        match entry.backend_data {
            Some(file) => files.push(file),
            None => {
                assert(entries@[it.index() as int].backend_data is None);
                return None;
            },
        }
    }
    assert(file_views(files@) =~= parquet_views(entries@));
    Some(files)
}

/// A mark in the stream of events at which every subtask writes its state.
#[derive(Clone, Copy, Debug, PartialEq, Eq, Structural)]
pub struct CheckpointBarrier {
    pub epoch: u32,
    pub min_epoch: u32,
    pub timestamp: u64,
    pub then_stop: bool,
}

/// A value that was written to a table.
#[derive(Debug)]
pub struct ParquetWrite {
    pub table: char,
    pub key_hash: u64,
    pub timestamp: u64,
    pub key: Vec<u8>,
    pub data: Vec<u8>,
}

/// A request to write all state that was collected. Times are in microseconds.
#[derive(Clone, Copy, Debug, PartialEq, Eq, Structural)]
pub struct ParquetCheckpoint {
    pub epoch: u32,
    pub time: u64,
    pub watermark: Option<u64>,
    pub then_stop: bool,
}

/// What is put on the queue to the flusher.
#[derive(Debug)]
pub enum ParquetQueueItem {
    Write(ParquetWrite),
    Checkpoint(ParquetCheckpoint),
}

/// The metadata of a checkpoint of a whole job.
#[derive(Debug)]
pub struct CheckpointMetadata {
    pub job_id: String,
    pub epoch: u32,
    pub min_epoch: u32,
    pub operator_ids: Vec<String>,
}

/// What a [`CheckpointMetadata`] says, over mathematical values.
pub struct Checkpoint {
    pub job_id: Seq<char>,
    pub epoch: u32,
    pub min_epoch: u32,
    pub operator_ids: Seq<Seq<char>>,
}

impl View for CheckpointMetadata {
    type V = Checkpoint;

    open spec fn view(&self) -> Checkpoint {
        Checkpoint {
            job_id: self.job_id@,
            epoch: self.epoch,
            min_epoch: self.min_epoch,
            operator_ids: string_views(self.operator_ids@),
        }
    }
}

/// A copy of a list of strings.
pub fn copy_strings(strings: &Vec<String>) -> (copy: Vec<String>)
    ensures
        string_views(copy@) == string_views(strings@),
{
    let mut copy: Vec<String> = Vec::new();
    let mut i: usize = 0;
    while i < strings.len()
        invariant
            i <= strings@.len(),
            copy@.len() == i,
            forall|j: int| 0 <= j < i ==> (#[trigger] copy@[j])@ == strings@[j]@,
        decreases strings.len() - i,
    {
        copy.push(strings[i].clone());
        i = i + 1;
    }
    assert(string_views(copy@) =~= string_views(strings@));
    copy
}

impl Clone for CheckpointMetadata {
    fn clone(&self) -> (copy: Self)
        ensures
            copy@ == self@,
    {
        CheckpointMetadata {
            job_id: self.job_id.clone(),
            epoch: self.epoch,
            min_epoch: self.min_epoch,
            operator_ids: copy_strings(&self.operator_ids),
        }
    }
}

/// The metadata of a checkpoint of one operator.
#[derive(Debug)]
pub struct OperatorCheckpointMetadata {
    pub job_id: String,
    pub operator_id: String,
    pub epoch: u32,
    pub backend_data: Vec<BackendData>,
}

/// The metadata of a checkpoint of one subtask. Times are in microseconds.
#[derive(Debug)]
pub struct SubtaskCheckpointMetadata {
    pub subtask_index: u32,
    pub start_time: u64,
    pub finish_time: u64,
    pub has_state: bool,
    pub tables: Vec<TableDescriptor>,
    pub watermark: Option<u64>,
    pub backend_data: Vec<BackendData>,
    pub bytes: u64,
}

/// The message that a subtask has finished a checkpoint.
#[derive(Debug)]
pub struct CheckpointCompleted {
    pub checkpoint_epoch: u32,
    pub operator_id: String,
    pub subtask_metadata: SubtaskCheckpointMetadata,
}

/// A key lies in a range exactly where it is neither below its start nor above its end.
pub proof fn ranges_hold_what_lies_between(range: KeyRange, key: u64)
    ensures
        range.spec_contains(key) <==> !(key < range.start) && !(range.end < key),
{
}

/// Where a range is split in two, each key of the range lies in one of the two, and none lies in
/// both; and the two hold no other keys.
pub proof fn split_ranges_share_the_keys(start: u64, middle: u64, end: u64, key: u64)
    requires
        start <= middle < end,
    ensures
        ({
            let low = KeyRange { start, end: middle };
            let high = KeyRange { start: (middle + 1) as u64, end };
            &&& (KeyRange { start, end }).spec_contains(key) <==> low.spec_contains(key)
                || high.spec_contains(key)
            &&& !(low.spec_contains(key) && high.spec_contains(key))
        }),
{
}

/// The range from zero to the greatest key holds every key.
pub proof fn the_full_range_holds_every_key(key: u64)
    ensures
        (KeyRange { start: 0, end: u64::MAX }).spec_contains(key),
{
}

/// What is said of a file is said of it field by field, and nothing is left out.
pub proof fn files_are_seen_as_they_are(file: ParquetStoreData)
    ensures
        file@.epoch == file.epoch,
        file@.file == file.file@,
        file@.table == file.table@,
        file@.min_routing_key == file.min_routing_key,
        file@.max_routing_key == file.max_routing_key,
        file@.max_timestamp_micros == file.max_timestamp_micros,
        file@.min_required_timestamp_micros == file.min_required_timestamp_micros,
{
}

/// What is said of a table is said of it field by field, and nothing is left out.
pub proof fn tables_are_seen_as_they_are(table: TableDescriptor)
    ensures
        table@.name == table.name@,
        table@.table_type == table.table_type,
        table@.delete_behavior == table.delete_behavior,
        table@.retention_micros == table.retention_micros,
{
}

/// What is said of a subtask is said of it field by field, and nothing is left out.
pub proof fn tasks_are_seen_as_they_are(task: TaskInfo)
    ensures
        task@.job_id == task.job_id@,
        task@.operator_id == task.operator_id@,
        task@.task_index == task.task_index,
        task@.key_range == task.key_range,
{
}

/// What is said of a checkpoint is said of it field by field, and nothing is left out.
pub proof fn checkpoints_are_seen_as_they_are(metadata: CheckpointMetadata)
    ensures
        metadata@.job_id == metadata.job_id@,
        metadata@.epoch == metadata.epoch,
        metadata@.min_epoch == metadata.min_epoch,
        metadata@.operator_ids.len() == metadata.operator_ids@.len(),
        forall|i: int|
            0 <= i < metadata.operator_ids@.len() ==> #[trigger] metadata@.operator_ids[i]
                == metadata.operator_ids@[i]@,
{
}

/// Lists are seen item by item: the files of entries, where files lie, and what strings hold.
pub proof fn lists_are_seen_item_by_item(
    entries: Seq<BackendData>,
    files: Seq<ParquetStoreData>,
    tables: Seq<TableDescriptor>,
    i: int,
)
    ensures
        parquet_views(entries).len() == entries.len(),
        entry_views(entries).len() == entries.len(),
        file_views(files).len() == files.len(),
        paths_of(file_views(files)).len() == files.len(),
        table_views(tables).len() == tables.len(),
        0 <= i < entries.len() ==> match entries[i].backend_data {
            Some(file) => parquet_views(entries)[i] == file@ && entry_views(entries)[i] == Some(
                file@,
            ),
            None => entry_views(entries)[i] is None && !all_parquet(entries),
        },
        0 <= i < files.len() ==> file_views(files)[i] == files[i]@ && paths_of(
            file_views(files),
        )[i] == files[i].file@,
        0 <= i < tables.len() ==> table_views(tables)[i] == tables[i]@,
{
}

/// Strings are seen one by one, in the order in which they stand.
pub proof fn strings_are_seen_one_by_one(strings: Seq<String>, i: int)
    ensures
        string_views(strings).len() == strings.len(),
        0 <= i < strings.len() ==> string_views(strings)[i] == strings[i]@,
{
}

} // verus!
