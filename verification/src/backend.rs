//! The state of one subtask: which checkpoint it is at, and which files hold what was written
//! before.
use std::collections::HashMap;
use std::hash::Hash;

use vstd::prelude::*;

use crate::batch;
use crate::batch::RecordBatchBuilder;
use crate::columns;
use crate::files;
use crate::files::FileMap;
use crate::flusher;
use crate::flusher::{FlushError, ParquetFlusher};
use crate::ordered;
use crate::tables;
use crate::tables::{first_char, tables_named, TableIndex};
use crate::triples;
use crate::triples::{triples_from_bytes, DataTriple, DecodeError};
use crate::types;
use crate::types::{
    BackendData, CheckpointBarrier, CheckpointMetadata, KeyRange, OperatorCheckpointMetadata,
    ParquetCheckpoint, ParquetQueueItem, ParquetWrite, TableDescriptor, TableType, TaskInfo,
};

verus! {

/// The state of one subtask.
pub struct BackendState {
    pub epoch: u32,
    pub min_epoch: u32,
    pub files: Map<u32, Map<u32, Seq<types::StoredFile>>>,
    pub task: types::Task,
    pub tables: Map<u32, types::Table>,
}

/// Whether a file may hold rows whose routing key lies in `range`.
pub open spec fn overlaps(file: types::StoredFile, range: KeyRange) -> bool {
    !(file.max_routing_key < range.start || range.end < file.min_routing_key)
}

/// The code of the table that a file belongs to.
pub open spec fn file_code(file: types::StoredFile) -> u32 {
    tables::table_code(tables::table_char(file.table))
}

/// Whether a subtask that owns `range` takes over a file: every subtask has all of a global
/// table, and of the other tables what may lie in its range.
pub open spec fn is_relevant(
    file: types::StoredFile,
    tables: Map<u32, types::Table>,
    range: KeyRange,
) -> bool {
    tables[file_code(file)].table_type == TableType::Global || overlaps(file, range)
}

/// The files that a subtask which owns `range` takes over, each under its table and the epoch
/// at which it was written.
pub open spec fn restored(
    list: Seq<types::StoredFile>,
    tables: Map<u32, types::Table>,
    range: KeyRange,
) -> Map<u32, Map<u32, Seq<types::StoredFile>>>
    decreases list.len(),
{
    if list.len() == 0 {
        Map::empty()
    } else {
        let before = restored(list.drop_last(), tables, range);
        let file = list.last();
        if is_relevant(file, tables, range) {
            files::with_file(before, file_code(file), file.epoch, file)
        } else {
            before
        }
    }
}

/// Whether every file names a table that is known.
pub open spec fn all_known(list: Seq<types::StoredFile>, tables: Map<u32, types::Table>) -> bool {
    forall|i: int|
        0 <= i < list.len() ==> (#[trigger] list[i]).table.len() > 0 && tables.contains_key(
            file_code(list[i]),
        )
}

/// Whether a subtask can start from a checkpoint: there is an epoch after it, the tables have
/// names, and the operator's metadata lists state files of these tables alone.
pub open spec fn is_restorable(
    metadata: CheckpointMetadata,
    operator_metadata: OperatorCheckpointMetadata,
    tables: Seq<types::Table>,
) -> bool {
    &&& metadata.epoch < u32::MAX
    &&& tables::all_named(tables)
    &&& types::all_parquet(operator_metadata.backend_data@)
    &&& all_known(
        types::parquet_views(operator_metadata.backend_data@),
        tables::indexed(tables),
    )
}

/// Keys and values of triples, without their timestamps.
pub open spec fn pairs_of(list: Seq<triples::Triple>) -> Seq<(Seq<u8>, Seq<u8>)> {
    list.map_values(|t: triples::Triple| (t.key, t.value))
}

/// What pairs of encoded keys and values say, over mathematical values.
pub open spec fn pair_views(pairs: Seq<(Vec<u8>, Vec<u8>)>) -> Seq<(Seq<u8>, Seq<u8>)> {
    pairs.map_values(|p: (Vec<u8>, Vec<u8>)| (p.0@, p.1@))
}

/// The outcome of reading pairs, over mathematical values.
pub open spec fn pair_outcome(result: Result<Vec<(Vec<u8>, Vec<u8>)>, DecodeError>) -> Result<
    Seq<(Seq<u8>, Seq<u8>)>,
    DecodeError,
> {
    match result {
        Ok(pairs) => Ok(pair_views(pairs@)),
        Err(e) => Err(e),
    }
}

/// The pairs that files give: those of their triples, or the error.
pub open spec fn decoded_pairs(contents: Seq<Seq<u8>>, range: KeyRange) -> Result<
    Seq<(Seq<u8>, Seq<u8>)>,
    DecodeError,
> {
    match triples::decode_files(contents, range) {
        Ok(list) => Ok(pairs_of(list)),
        Err(e) => Err(e),
    }
}

/// For each key the value that stands last under it.
pub open spec fn latest<K, V>(pairs: Seq<(K, V)>) -> Map<K, V>
    decreases pairs.len(),
{
    if pairs.len() == 0 {
        Map::empty()
    } else {
        latest(pairs.drop_last()).insert(pairs.last().0, pairs.last().1)
    }
}

/// The value that counts for a key is the last one that stands under it.
pub proof fn the_last_value_counts<K, V>(pairs: Seq<(K, V)>, i: int)
    requires
        0 <= i < pairs.len(),
        forall|j: int| i < j < pairs.len() ==> (#[trigger] pairs[j]).0 != pairs[i].0,
    ensures
        latest(pairs).contains_key(pairs[i].0),
        latest(pairs)[pairs[i].0] == pairs[i].1,
    decreases pairs.len(),
{
    if i < pairs.len() - 1 {
        let before = pairs.drop_last();
        assert forall|j: int| i < j < before.len() implies (#[trigger] before[j]).0
            != before[i].0 by {
            assert(before[j] == pairs[j]);
        }
        the_last_value_counts(before, i);
        assert(pairs[pairs.len() - 1].0 != pairs[i].0);
    }
}

/// There is a value for no key but those that stand in a pair.
pub proof fn no_other_keys_count<K, V>(pairs: Seq<(K, V)>, key: K)
    requires
        latest(pairs).contains_key(key),
    ensures
        exists|i: int| 0 <= i < pairs.len() && (#[trigger] pairs[i]).0 == key,
    decreases pairs.len(),
{
    if pairs.len() > 0 {
        let last = pairs.len() - 1;
        if pairs[last].0 != key {
            let before = pairs.drop_last();
            no_other_keys_count(before, key);
            let i = choose|i: int| 0 <= i < before.len() && (#[trigger] before[i]).0 == key;
            assert(pairs[i] == before[i]);
        }
    }
}

/// For each key the value that stands last under it.
pub fn latest_values<K: Eq + Hash, V>(pairs: Vec<(K, V)>) -> (state: HashMap<K, V>)
    requires
        vstd::std_specs::hash::obeys_key_model::<K>(),
    ensures
        state@ == latest(pairs@),
{
    let mut state: HashMap<K, V> = HashMap::new();
    for pair in it: pairs
        invariant
            vstd::std_specs::hash::obeys_key_model::<K>(),
            it.seq() == pairs@,
            state@ == latest(pairs@.take(it.index() as int)),
    {
        proof {
            assert(pairs@.take(it.index() + 1).drop_last() =~= pairs@.take(it.index() as int));
        }
        state.insert(pair.0, pair.1);
    }
    assert(pairs@.take(pairs@.len() as int) =~= pairs@);
    state
}

/// Keys and values of triples, without their timestamps.
fn without_timestamps(list: Vec<DataTriple>) -> (pairs: Vec<(Vec<u8>, Vec<u8>)>)
    ensures
        pair_views(pairs@) == pairs_of(triples::triple_views(list@)),
{
    let mut pairs: Vec<(Vec<u8>, Vec<u8>)> = Vec::new();
    for triple in it: list
        invariant
            it.seq() == list@,
            pairs@.len() == it.index(),
            forall|i: int|
                0 <= i < it.index() ==> (#[trigger] pairs@[i]).0@ == list@[i].key@ && pairs@[i].1@
                    == list@[i].value@,
    {
        pairs.push((triple.key, triple.value));
    }
    assert(pair_views(pairs@) =~= pairs_of(triples::triple_views(list@)));
    pairs
}

/// The state of one subtask between its checkpoints.
pub struct ParquetBackend {
    epoch: u32,
    min_epoch: u32,
    current_files: FileMap,
    task_info: TaskInfo,
    tables: TableIndex,
}

impl View for ParquetBackend {
    type V = BackendState;

    closed spec fn view(&self) -> BackendState {
        BackendState {
            epoch: self.epoch,
            min_epoch: self.min_epoch,
            files: self.current_files@,
            task: self.task_info@,
            tables: self.tables@,
        }
    }
}

impl ParquetBackend {
    /// Every table stands under the character that identifies it.
    pub open spec fn wf(self) -> bool {
        tables::is_index(self@.tables)
    }

    /// The name of this kind of backend.
    pub fn name() -> (name: &'static str)
        ensures
            name@ == "parquet"@,
    {
        "parquet"
    }

    /// A subtask that starts without state: its first checkpoint is that of epoch 1.
    pub fn new(task_info: &TaskInfo, tables: Vec<TableDescriptor>) -> (backend: ParquetBackend)
        requires
            tables::all_named(types::table_views(tables@)),
        ensures
            backend.wf(),
            backend@ == (BackendState {
                epoch: 1,
                min_epoch: 1,
                files: Map::empty(),
                task: task_info@,
                tables: tables::indexed(types::table_views(tables@)),
            }),
    {
        proof {
            tables::indexing_is_sound(types::table_views(tables@));
        }
        ParquetBackend {
            epoch: 1,
            min_epoch: 1,
            current_files: FileMap::new(),
            task_info: task_info.clone(),
            tables: TableIndex::from_tables(tables),
        }
    }

    /// Whether a subtask can start from a checkpoint.
    pub fn can_restore(
        metadata: &CheckpointMetadata,
        operator_metadata: &OperatorCheckpointMetadata,
        tables: &Vec<TableDescriptor>,
    ) -> (can: bool)
        ensures
            can == is_restorable(*metadata, *operator_metadata, types::table_views(tables@)),
    {
        if metadata.epoch == u32::MAX || !tables_named(tables) {
            return false;
        }
        let index: TableIndex = TableIndex::from_tables(copy_tables(tables));
        let entries: &Vec<BackendData> = &operator_metadata.backend_data;
        let ghost views = types::parquet_views(entries@);
        let mut i: usize = 0;
        while i < entries.len()
            invariant
                i <= entries@.len(),
                *entries == operator_metadata.backend_data,
                views == types::parquet_views(entries@),
                index@ == tables::indexed(types::table_views(tables@)),
                forall|j: int|
                    0 <= j < i ==> {
                        &&& (#[trigger] entries@[j]).backend_data is Some
                        &&& views[j].table.len() > 0
                        &&& index@.contains_key(file_code(views[j]))
                    },
            decreases entries.len() - i,
        {
            match &entries[i].backend_data {
                Some(file) => {
                    assert(views[i as int] == file@);
                    if file.table.as_str().is_empty() {
                        return false;
                    }
                    if index.get(first_char(&file.table)).is_none() {
                        return false;
                    }
                },
                None => {
                    return false;
                },
            }
            i = i + 1;
        }
        proof {
            assert forall|j: int| 0 <= j < views.len() implies (#[trigger] views[j]).table.len() > 0
                && index@.contains_key(file_code(views[j])) by {
                assert(entries@[j].backend_data is Some);
            }
        }
        true
    }

    /// A subtask that goes on from a checkpoint: it takes over the files that may hold rows in
    /// its range of routing keys, and all files of global tables.
    pub fn from_checkpoint(
        task_info: &TaskInfo,
        metadata: &CheckpointMetadata,
        operator_metadata: OperatorCheckpointMetadata,
        tables: Vec<TableDescriptor>,
    ) -> (backend: ParquetBackend)
        requires
            is_restorable(*metadata, operator_metadata, types::table_views(tables@)),
        ensures
            backend.wf(),
            backend@ == (BackendState {
                epoch: (metadata.epoch + 1) as u32,
                min_epoch: metadata.min_epoch,
                files: restored(
                    types::parquet_views(operator_metadata.backend_data@),
                    tables::indexed(types::table_views(tables@)),
                    task_info.key_range,
                ),
                task: task_info@,
                tables: tables::indexed(types::table_views(tables@)),
            }),
    {
        let ghost entries = operator_metadata.backend_data@;
        let ghost all = types::parquet_views(entries);
        proof {
            tables::indexing_is_sound(types::table_views(tables@));
        }
        let tables: TableIndex = TableIndex::from_tables(tables);
        let mut current_files: FileMap = FileMap::new();
        for backend_data in it: operator_metadata.backend_data
            invariant
                it.seq() == entries,
                all == types::parquet_views(entries),
                types::all_parquet(entries),
                all_known(all, tables@),
                current_files@ == restored(
                    all.take(it.index() as int),
                    tables@,
                    task_info.key_range,
                ),
        {
            proof {
                assert(entries[it.index() as int].backend_data is Some);
                assert(all[it.index() as int] == backend_data.backend_data->0@);
                assert(all.take(it.index() + 1).drop_last() =~= all.take(it.index() as int));
            }
            match backend_data.backend_data {
                Some(parquet_data) => {
                    let table: char = first_char(&parquet_data.table);
                    match tables.get(table) {
                        Some(table_descriptor) => {
                            if table_descriptor.table_type == TableType::Global || !(
                            parquet_data.max_routing_key < task_info.key_range.start
                                || task_info.key_range.end < parquet_data.min_routing_key) {
                                let epoch: u32 = parquet_data.epoch;
                                current_files.push(table, epoch, parquet_data);
                            }
                        },
                        None => {
                            assert(false);
                        },
                    }
                },
                None => {
                    assert(false);
                },
            }
        }
        assert(all.take(all.len() as int) =~= all);
        ParquetBackend {
            epoch: metadata.epoch + 1,
            min_epoch: metadata.min_epoch,
            current_files,
            task_info: task_info.clone(),
            tables,
        }
    }

    /// The flusher that writes what this subtask collects.
    pub fn flusher(&self) -> (flusher: ParquetFlusher)
        requires
            self.wf(),
        ensures
            flusher.wf(),
            flusher@ == (flusher::FlusherState {
                task: self@.task,
                tables: self@.tables,
                buffers: Map::empty(),
                files: self@.files,
                phase: flusher::Phase::Collecting,
            }),
    {
        proof {
            tables::reindexing_changes_nothing(self@.tables);
        }
        ParquetFlusher::new(
            self.task_info.clone(),
            self.tables.descriptors(),
            self.current_files.clone(),
        )
    }

    /// The item that asks the flusher for the checkpoint at `barrier`, and the epoch of that
    /// checkpoint. The subtask is then at the epoch after it.
    pub fn checkpoint(&mut self, barrier: CheckpointBarrier, watermark: Option<u64>) -> (request: (
        ParquetQueueItem,
        u32,
    ))
        requires
            barrier.epoch == old(self)@.epoch,
            old(self)@.epoch < u32::MAX,
        ensures
            request.0 == ParquetQueueItem::Checkpoint(
                ParquetCheckpoint {
                    epoch: old(self)@.epoch,
                    time: barrier.timestamp,
                    watermark,
                    then_stop: barrier.then_stop,
                },
            ),
            request.1 == old(self)@.epoch,
            final(self)@ == (BackendState {
                epoch: (old(self)@.epoch + 1) as u32,
                min_epoch: barrier.min_epoch,
                ..old(self)@
            }),
    {
        let item = ParquetQueueItem::Checkpoint(
            ParquetCheckpoint {
                epoch: self.epoch,
                time: barrier.timestamp,
                watermark,
                then_stop: barrier.then_stop,
            },
        );
        self.epoch = self.epoch + 1;
        self.min_epoch = barrier.min_epoch;
        (item, self.epoch - 1)
    }

    /// The epoch of the next checkpoint.
    pub fn epoch(&self) -> (epoch: u32)
        ensures
            epoch == self@.epoch,
    {
        self.epoch
    }

    /// The least epoch whose checkpoint is still needed.
    pub fn min_epoch(&self) -> (min_epoch: u32)
        ensures
            min_epoch == self@.min_epoch,
    {
        self.min_epoch
    }

    /// The item that hands a value to the flusher, under the routing key of its key.
    pub fn write_data_triple(
        &self,
        table: char,
        timestamp: u64,
        key_hash: u64,
        key: Vec<u8>,
        value: Vec<u8>,
    ) -> (item: ParquetQueueItem)
        ensures
            item == ParquetQueueItem::Write(
                ParquetWrite { table, key_hash, timestamp, key, data: value },
            ),
    {
        ParquetQueueItem::Write(ParquetWrite { table, key_hash, timestamp, key, data: value })
    }

    /// The item that hands a value without a time of its own to the flusher: its timestamp is
    /// zero.
    pub fn write_key_value(
        &self,
        table: char,
        key_hash: u64,
        key: Vec<u8>,
        value: Vec<u8>,
    ) -> (item: ParquetQueueItem)
        ensures
            item == ParquetQueueItem::Write(
                ParquetWrite { table, key_hash, timestamp: 0, key, data: value },
            ),
    {
        self.write_data_triple(table, 0, key_hash, key, value)
    }

    /// Where the files of `table` lie, by ascending epoch.
    pub fn table_files(&self, table: char) -> (paths: Vec<String>)
        ensures
            types::string_views(paths@) == types::paths_of(
                files::files_of(self@.files, tables::table_code(table)),
            ),
    {
        self.current_files.paths(table)
    }

    /// Whether `table` is a known table whose entries have timestamps.
    pub fn has_data_triples(&self, table: char) -> (has: bool)
        ensures
            has == holds_triples(self@, table),
    {
        match self.tables.get(table) {
            Some(descriptor) => descriptor.table_type != TableType::Global,
            None => false,
        }
    }

    /// The triples in the bytes of a state file whose routing key lies in `range`.
    pub fn triples_from_parquet_bytes(&self, bytes: &Vec<u8>, range: &KeyRange) -> (list: Result<
        Vec<DataTriple>,
        DecodeError,
    >)
        requires
            columns::is_readable(bytes@),
        ensures
            triples::outcome(list) == triples::decode_file(bytes@, *range),
    {
        triples_from_bytes(bytes, range)
    }

    /// The triples in the bytes of several state files whose routing key lies in `range`, one
    /// file behind the other.
    fn triples_from_files(&self, files: &Vec<Vec<u8>>, range: &KeyRange) -> (list: Result<
        Vec<DataTriple>,
        DecodeError,
    >)
        requires
            triples::all_readable(triples::contents_of(files@)),
        ensures
            triples::outcome(list) == triples::decode_files(triples::contents_of(files@), *range),
    {
        let ghost all = triples::contents_of(files@);
        let mut result: Vec<DataTriple> = Vec::new();
        let mut i: usize = 0;
        assert(triples::triple_views(result@) =~= Seq::<triples::Triple>::empty());
        while i < files.len()
            invariant
                i <= files@.len(),
                all == triples::contents_of(files@),
                triples::all_readable(all),
                triples::decode_files(all.take(i as int), *range) == Ok::<
                    Seq<triples::Triple>,
                    DecodeError,
                >(triples::triple_views(result@)),
            decreases files.len() - i,
        {
            let ghost before = result@;
            let bytes: &Vec<u8> = &files[i];
            proof {
                assert(all.take(i + 1).drop_last() =~= all.take(i as int));
                assert(all[i as int] == bytes@);
                assert(all.take(i + 1).last() == bytes@);
            }
            match self.triples_from_parquet_bytes(bytes, range) {
                Ok(list) => {
                    let mut list: Vec<DataTriple> = list;
                    let ghost added = list@;
                    result.append(&mut list);
                    assert(triples::triple_views(result@) =~= triples::triple_views(before)
                        + triples::triple_views(added));
                },
                Err(e) => {
                    proof {
                        triples::lemma_file_error_stays(all, (i + 1) as nat, *range);
                    }
                    return Err(e);
                },
            }
            i = i + 1;
        }
        assert(all.take(i as int) =~= all);
        Ok(result)
    }

    /// What the subtask has in `table`, in the range of routing keys that it owns. `contents`
    /// are the bytes of the files of `table`, in the order of [`ParquetBackend::table_files`].
    pub fn get_data_triples(&self, table: char, contents: &Vec<Vec<u8>>) -> (list: Result<
        Vec<DataTriple>,
        DecodeError,
    >)
        requires
            holds_triples(self@, table),
            triples::all_readable(triples::contents_of(contents@)),
        ensures
            triples::outcome(list) == triples::decode_files(
                triples::contents_of(contents@),
                self@.task.key_range,
            ),
    {
        self.triples_from_files(contents, &self.task_info.key_range)
    }

    /// The pairs of a global table, with all routing keys, in the order in which they were
    /// written. `contents` are the bytes of its files, in the order of
    /// [`ParquetBackend::table_files`].
    pub fn get_global_key_values(&self, contents: &Vec<Vec<u8>>) -> (pairs: Result<
        Vec<(Vec<u8>, Vec<u8>)>,
        DecodeError,
    >)
        requires
            triples::all_readable(triples::contents_of(contents@)),
        ensures
            pair_outcome(pairs) == decoded_pairs(
                triples::contents_of(contents@),
                KeyRange { start: 0, end: u64::MAX },
            ),
    {
        match self.triples_from_files(contents, &KeyRange::all()) {
            Ok(list) => Ok(without_timestamps(list)),
            Err(e) => Err(e),
        }
    }

    /// The pairs of a table, in the range of routing keys that the subtask owns and in the
    /// order in which they were written. `contents` are the bytes of its files, in the order
    /// of [`ParquetBackend::table_files`].
    pub fn get_key_values(&self, contents: &Vec<Vec<u8>>) -> (pairs: Result<
        Vec<(Vec<u8>, Vec<u8>)>,
        DecodeError,
    >)
        requires
            triples::all_readable(triples::contents_of(contents@)),
        ensures
            pair_outcome(pairs) == decoded_pairs(
                triples::contents_of(contents@),
                self@.task.key_range,
            ),
    {
        match self.triples_from_files(contents, &self.task_info.key_range) {
            Ok(list) => Ok(without_timestamps(list)),
            Err(e) => Err(e),
        }
    }

    /// Writes `rows` as the only file of `table` and reads them again, as a subtask would after
    /// a restart. The rows come back as they are; it fails only where no file can be made of
    /// them.
    pub fn read_back(&self, table: char, rows: RecordBatchBuilder) -> (found: Result<
        ReadBack,
        FlushError,
    >)
        requires
            rows.wf(),
        ensures
            match found {
                Ok(read) => {
                    &&& rows.rows().len() > 0 ==> columns::parquet_file(
                        batch::state_columns(rows.rows()),
                    ) is Some
                    &&& is_read_back(self@, table, rows.rows(), read)
                },
                Err(e) => {
                    &&& e == FlushError::Encode
                    &&& rows.rows().len() > 0
                    &&& columns::parquet_file(batch::state_columns(rows.rows())) is None
                },
            },
    {
        let ghost all = rows.rows();
        let mut contents: Vec<Vec<u8>> = Vec::new();
        if let Some((batch, _)) = rows.flush() {
            match columns::encode_batch(&batch) {
                Ok(bytes) => contents.push(bytes),
                Err(_) => {
                    return Err(FlushError::Encode);
                },
            }
        }
        proof {
            let files = triples::contents_of(contents@);
            let lists = if all.len() > 0 {
                seq![all]
            } else {
                Seq::empty()
            };
            let full = KeyRange { start: 0, end: u64::MAX };
            batch::columns_keep_rows(all);
            assert(ordered::concat(lists) =~= all) by {
                if all.len() > 0 {
                    ordered::lemma_concat_push(Seq::<Seq<columns::DataRow>>::empty(), all);
                    assert(Seq::<Seq<columns::DataRow>>::empty().push(all) =~= lists);
                }
            }
            triples::several_state_files_read_back(files, lists, self@.task.key_range);
            triples::several_state_files_read_back(files, lists, full);
        }
        let data_triples: Option<Vec<DataTriple>> = if self.has_data_triples(table) {
            Some(self.get_data_triples(table, &contents).unwrap())
        } else {
            None
        };
        let key_values: Vec<(Vec<u8>, Vec<u8>)> = self.get_key_values(&contents).unwrap();
        let global_key_values: Vec<(Vec<u8>, Vec<u8>)> = self.get_global_key_values(
            &contents,
        ).unwrap();
        Ok(ReadBack { data_triples, key_values, global_key_values })
    }
}

/// What comes back of some rows from the file that they are written as.
#[derive(Debug)]
pub struct ReadBack {
    /// What [`ParquetBackend::get_data_triples`] gives, if the table has entries with
    /// timestamps.
    pub data_triples: Option<Vec<DataTriple>>,
    /// What [`ParquetBackend::get_key_values`] gives.
    pub key_values: Vec<(Vec<u8>, Vec<u8>)>,
    /// What [`ParquetBackend::get_global_key_values`] gives.
    pub global_key_values: Vec<(Vec<u8>, Vec<u8>)>,
}

/// Whether `found` is what a subtask in `state` has to read of `rows` in `table`.
pub open spec fn is_read_back(
    state: BackendState,
    table: char,
    rows: Seq<columns::DataRow>,
    found: ReadBack,
) -> bool {
    let own = triples::selected(rows, state.task.key_range);
    let all = triples::selected(rows, KeyRange { start: 0, end: u64::MAX });
    &&& match found.data_triples {
        Some(list) => holds_triples(state, table) && triples::triple_views(list@) == own,
        None => !holds_triples(state, table),
    }
    &&& pair_views(found.key_values@) == pairs_of(own)
    &&& pair_views(found.global_key_values@) == pairs_of(all)
}

/// Whether `table` is a known table whose entries have timestamps.
pub open spec fn holds_triples(state: BackendState, table: char) -> bool {
    &&& state.tables.contains_key(tables::table_code(table))
    &&& state.tables[tables::table_code(table)].table_type != TableType::Global
}

/// A copy of a list of tables.
fn copy_tables(tables: &Vec<TableDescriptor>) -> (copy: Vec<TableDescriptor>)
    ensures
        types::table_views(copy@) == types::table_views(tables@),
{
    let mut copy: Vec<TableDescriptor> = Vec::new();
    let mut i: usize = 0;
    while i < tables.len()
        invariant
            i <= tables@.len(),
            copy@.len() == i,
            forall|j: int| 0 <= j < i ==> (#[trigger] copy@[j])@ == tables@[j]@,
        decreases tables.len() - i,
    {
        copy.push(tables[i].clone());
        i = i + 1;
    }
    assert(types::table_views(copy@) =~= types::table_views(tables@));
    copy
}

/// A subtask can start from a checkpoint exactly where there is an epoch after it, no table is
/// without a name, and each entry of the operator's metadata is a state file whose table has the
/// first character of its name in common with one of the tables.
pub proof fn checkpoints_can_be_started_from(
    metadata: CheckpointMetadata,
    operator_metadata: OperatorCheckpointMetadata,
    tables: Seq<types::Table>,
)
    ensures
        is_restorable(metadata, operator_metadata, tables) <==> {
            &&& metadata.epoch < 0xffff_ffff
            &&& forall|i: int| 0 <= i < tables.len() ==> (#[trigger] tables[i]).name.len() > 0
            &&& forall|j: int|
                0 <= j < operator_metadata.backend_data@.len() ==> {
                    let entry = (#[trigger] operator_metadata.backend_data@[j]).backend_data;
                    &&& entry is Some
                    &&& entry->0.table@.len() > 0
                    &&& exists|i: int|
                        0 <= i < tables.len() && (#[trigger] tables[i]).name[0]
                            == entry->0.table@[0]
                }
        },
{
    let entries = operator_metadata.backend_data@;
    let views = types::parquet_views(entries);
    let index = tables::indexed(tables);
    if is_restorable(metadata, operator_metadata, tables) {
        assert forall|j: int| 0 <= j < entries.len() implies {
            let entry = (#[trigger] entries[j]).backend_data;
            &&& entry is Some
            &&& entry->0.table@.len() > 0
            &&& exists|i: int|
                0 <= i < tables.len() && (#[trigger] tables[i]).name[0] == entry->0.table@[0]
        } by {
            let table = entries[j].backend_data->0.table@;
            assert(views[j].table == table);
            assert(index.contains_key(file_code(views[j])));
            tables::only_first_characters_are_found(tables, table[0] as u32);
            let i = choose|i: int|
                0 <= i < tables.len() && (#[trigger] tables[i]).name[0] as u32 == table[0] as u32;
            assert(tables[i].name.len() > 0);
            tables::codes_differ(tables[i].name[0], table[0]);
        }
    }
    if ({
        &&& metadata.epoch < 0xffff_ffff
        &&& forall|i: int| 0 <= i < tables.len() ==> (#[trigger] tables[i]).name.len() > 0
        &&& forall|j: int|
            0 <= j < entries.len() ==> {
                let entry = (#[trigger] entries[j]).backend_data;
                &&& entry is Some
                &&& entry->0.table@.len() > 0
                &&& exists|i: int|
                    0 <= i < tables.len() && (#[trigger] tables[i]).name[0] == entry->0.table@[0]
            }
    }) {
        assert forall|j: int| 0 <= j < views.len() implies (#[trigger] views[j]).table.len() > 0
            && index.contains_key(file_code(views[j])) by {
            let table = entries[j].backend_data->0.table@;
            assert(views[j].table == table);
            let i = choose|i: int|
                0 <= i < tables.len() && (#[trigger] tables[i]).name[0] == table[0];
            tables::first_characters_are_found(tables, i);
        }
    }
}

/// Pairs are what triples hold besides their timestamps, one for one; where reading fails, so
/// does reading pairs.
pub proof fn pairs_are_triples_without_timestamps(
    contents: Seq<Seq<u8>>,
    range: KeyRange,
    pairs: Vec<(Vec<u8>, Vec<u8>)>,
    i: int,
)
    ensures
        match triples::decode_files(contents, range) {
            Ok(list) => decoded_pairs(contents, range) matches Ok(found) && found.len()
                == list.len() && (0 <= i < list.len() ==> found[i].0 == list[i].key && found[i].1
                == list[i].value),
            Err(e) => decoded_pairs(contents, range) == Err::<
                Seq<(Seq<u8>, Seq<u8>)>,
                DecodeError,
            >(e),
        },
        pair_outcome(Ok(pairs)) matches Ok(seen) && seen.len() == pairs@.len() && (0 <= i
            < pairs@.len() ==> seen[i].0 == pairs@[i].0@ && seen[i].1 == pairs@[i].1@),
{
}

/// Entries with timestamps are in a table that is known, whichever its type, unless it is global.
pub proof fn ordinary_tables_hold_triples(state: BackendState, table: char)
    ensures
        !state.tables.contains_key(table as u32) ==> !holds_triples(state, table),
        state.tables.contains_key(table as u32) ==> (holds_triples(state, table) <==> match
            state.tables[table as u32].table_type {
            TableType::Global => false,
            TableType::TimeKeyMap => true,
            TableType::KeyTimeMultiMap => true,
        }),
{
}

} // verus!
