//! The flusher of one subtask: it collects what is written, and at a checkpoint turns it into
//! state files and reports them.
//!
//! The flusher decides; whoever drives it performs what it asks for and tells it what came of
//! that. It takes a [`FlushEvent`] and answers with a [`FlushAction`].
use std::collections::BTreeMap;

use vstd::prelude::*;

use crate::batch;
use crate::batch::{ParquetStats, RecordBatchBuilder};
use crate::columns;
use crate::columns::Batch;
use crate::files;
use crate::files::FileMap;
use crate::ordered;
use crate::paths;
use crate::paths::table_checkpoint_path;
use crate::tables;
use crate::tables::TableIndex;
use crate::types;
use crate::types::{
    BackendData, CheckpointCompleted, ParquetCheckpoint, ParquetQueueItem, ParquetStoreData,
    ParquetWrite, SubtaskCheckpointMetadata, TableDescriptor, TaskInfo,
};

verus! {

/// What the flusher is told.
#[derive(Debug)]
pub enum FlushEvent {
    /// This came from the queue.
    Item(ParquetQueueItem),
    /// The queue is closed and empty.
    Closed,
    /// The file that was to be uploaded is stored.
    Uploaded,
    /// The file that was to be uploaded could not be stored.
    UploadFailed,
    /// The time in microseconds.
    Clock(u64),
}

/// Why a checkpoint could not be written.
#[derive(Clone, Copy, Debug, PartialEq, Eq, Structural)]
pub enum FlushError {
    /// No file could be made of the rows of a table.
    Encode,
    /// A file could not be stored.
    Upload,
}

/// What the flusher asks for.
#[derive(Debug)]
pub enum FlushAction {
    /// Take the next item from the queue.
    Receive,
    /// Store `contents` under `key`.
    Upload { key: String, contents: Vec<u8> },
    /// Look at the clock.
    ReadClock,
    /// Send the message that the checkpoint is done; with `then_stop` the flusher has stopped.
    Report { completed: CheckpointCompleted, then_stop: bool },
    /// Stop: there will be nothing more to do.
    Stop,
    /// Give up.
    Fail(FlushError),
}

/// The rows of one table that were written since the last checkpoint.
pub struct Buffer {
    pub table: char,
    pub rows: Seq<columns::DataRow>,
}

/// A file that is to be written.
pub struct Pending {
    pub table: char,
    pub file: Seq<char>,
    pub stats: ParquetStats,
    pub columns: Seq<columns::Column>,
}

/// A file that is being stored.
pub struct Upload {
    pub table: char,
    pub file: Seq<char>,
    pub stats: ParquetStats,
    pub size: nat,
}

/// What the flusher is at.
pub enum Phase {
    /// It waits for the next item.
    Collecting,
    /// It waits for `current` to be stored; `rest` is still to come, and `bytes` are stored.
    Uploading { checkpoint: ParquetCheckpoint, current: Upload, rest: Seq<Pending>, bytes: nat },
    /// It waits for the time; all files are stored.
    Finishing { checkpoint: ParquetCheckpoint, bytes: nat },
    /// It has stopped.
    Stopped,
}

/// The state of a flusher.
pub struct FlusherState {
    pub task: types::Task,
    pub tables: Map<u32, types::Table>,
    pub buffers: Map<u32, Buffer>,
    pub files: Map<u32, Map<u32, Seq<types::StoredFile>>>,
    pub phase: Phase,
}

/// What is reported of a checkpoint.
pub struct Report {
    pub checkpoint_epoch: u32,
    pub operator_id: Seq<char>,
    pub subtask_index: u32,
    pub start_time: u64,
    pub finish_time: u64,
    pub has_state: bool,
    pub tables: Seq<types::Table>,
    pub watermark: Option<u64>,
    pub backend_data: Seq<Option<types::StoredFile>>,
    pub bytes: u64,
}

/// What a [`CheckpointCompleted`] says, over mathematical values.
pub open spec fn report_view(completed: CheckpointCompleted) -> Report {
    let metadata = completed.subtask_metadata;
    Report {
        checkpoint_epoch: completed.checkpoint_epoch,
        operator_id: completed.operator_id@,
        subtask_index: metadata.subtask_index,
        start_time: metadata.start_time,
        finish_time: metadata.finish_time,
        has_state: metadata.has_state,
        tables: types::table_views(metadata.tables@),
        watermark: metadata.watermark,
        backend_data: types::entry_views(metadata.backend_data@),
        bytes: metadata.bytes,
    }
}

/// What a [`FlushAction`] says, over mathematical values.
pub enum Action {
    Receive,
    Upload { key: Seq<char>, contents: Seq<u8> },
    ReadClock,
    Report { report: Report, then_stop: bool },
    Stop,
    Fail(FlushError),
}

impl View for FlushAction {
    type V = Action;

    open spec fn view(&self) -> Action {
        match self {
            FlushAction::Receive => Action::Receive,
            FlushAction::Upload { key, contents } => Action::Upload {
                key: key@,
                contents: contents@,
            },
            FlushAction::ReadClock => Action::ReadClock,
            FlushAction::Report { completed, then_stop } => Action::Report {
                report: report_view(*completed),
                then_stop: *then_stop,
            },
            FlushAction::Stop => Action::Stop,
            FlushAction::Fail(e) => Action::Fail(*e),
        }
    }
}

/// The rows of `table` that were written since the last checkpoint.
pub open spec fn buffered_rows(buffers: Map<u32, Buffer>, table: char) -> Seq<columns::DataRow> {
    if buffers.contains_key(tables::table_code(table)) {
        buffers[tables::table_code(table)].rows
    } else {
        Seq::empty()
    }
}

/// The row that a write stands for.
pub open spec fn written_row(write: ParquetWrite) -> columns::DataRow {
    columns::DataRow {
        key_hash: write.key_hash,
        timestamp: write.timestamp,
        key: write.key@,
        data: write.data@,
    }
}

/// The buffers with one more row in them.
pub open spec fn with_row(buffers: Map<u32, Buffer>, write: ParquetWrite) -> Map<u32, Buffer> {
    buffers.insert(
        tables::table_code(write.table),
        Buffer {
            table: write.table,
            rows: buffered_rows(buffers, write.table).push(written_row(write)),
        },
    )
}

/// The files, at most one, that a buffer gives at the checkpoint of `epoch`.
pub open spec fn pending_from(buffer: Buffer, task: types::Task, epoch: u32) -> Seq<Pending> {
    if buffer.rows.len() == 0 {
        Seq::empty()
    } else {
        seq![
            Pending {
                table: buffer.table,
                file: paths::spec_table_checkpoint_path(task, buffer.table, epoch),
                stats: batch::stats_of(buffer.rows),
                columns: batch::state_columns(buffer.rows),
            },
        ]
    }
}

/// The files that are to be written at the checkpoint of `epoch`, in ascending order of their
/// tables.
pub open spec fn pending_of(buffers: Map<u32, Buffer>, task: types::Task, epoch: u32) -> Seq<
    Pending,
> {
    ordered::concat(
        ordered::ordered_values(buffers).map_values(|b: Buffer| pending_from(b, task, epoch)),
    )
}

/// What the checkpoint says of a file that was stored.
pub open spec fn stored_file(upload: Upload, epoch: u32) -> types::StoredFile {
    types::StoredFile {
        epoch,
        file: upload.file,
        table: seq![upload.table],
        min_routing_key: upload.stats.min_routing_key,
        max_routing_key: upload.stats.max_routing_key,
        max_timestamp_micros: upload.stats.max_timestamp,
        min_required_timestamp_micros: None,
    }
}

/// Going on with `pending`: the first file is uploaded, or where there is none the checkpoint
/// is finished.
pub open spec fn next_upload(
    state: FlusherState,
    checkpoint: ParquetCheckpoint,
    pending: Seq<Pending>,
    bytes: nat,
) -> (FlusherState, Action) {
    if pending.len() == 0 {
        (
            FlusherState { phase: Phase::Finishing { checkpoint, bytes }, ..state },
            Action::ReadClock,
        )
    } else {
        let file = pending[0];
        match columns::parquet_file(file.columns) {
            Some(contents) => (
                FlusherState {
                    phase: Phase::Uploading {
                        checkpoint,
                        current: Upload {
                            table: file.table,
                            file: file.file,
                            stats: file.stats,
                            size: contents.len(),
                        },
                        rest: pending.drop_first(),
                        bytes,
                    },
                    ..state
                },
                Action::Upload { key: file.file, contents },
            ),
            None => (
                FlusherState { phase: Phase::Stopped, ..state },
                Action::Fail(FlushError::Encode),
            ),
        }
    }
}

/// The files that are still to be written once `event` has been taken.
pub open spec fn pending_after(state: FlusherState, event: FlushEvent) -> Seq<Pending> {
    match (state.phase, event) {
        (Phase::Collecting, FlushEvent::Item(ParquetQueueItem::Checkpoint(checkpoint))) =>
            pending_of(state.buffers, state.task, checkpoint.epoch),
        (Phase::Uploading { rest, .. }, FlushEvent::Uploaded) => rest,
        _ => Seq::empty(),
    }
}

/// The entries of the metadata that stand for `list`.
pub open spec fn entries_for(list: Seq<types::StoredFile>) -> Seq<Option<types::StoredFile>> {
    list.map_values(|f: types::StoredFile| Some(f))
}

/// What is reported at `now` of a checkpoint that stored `bytes`.
pub open spec fn report_of(
    state: FlusherState,
    checkpoint: ParquetCheckpoint,
    bytes: nat,
    now: u64,
) -> Report {
    let kept = files::kept_files(
        state.files,
        state.tables,
        checkpoint.epoch,
        checkpoint.watermark,
    );
    Report {
        checkpoint_epoch: checkpoint.epoch,
        operator_id: state.task.operator_id,
        subtask_index: state.task.task_index as u32,
        start_time: checkpoint.time,
        finish_time: now,
        has_state: kept.len() > 0,
        tables: ordered::ordered_values(state.tables),
        watermark: checkpoint.watermark,
        backend_data: entries_for(kept),
        bytes: bytes as u64,
    }
}

/// What the flusher does on an event that it accepts.
pub open spec fn transition(state: FlusherState, event: FlushEvent) -> (FlusherState, Action) {
    match (state.phase, event) {
        (Phase::Collecting, FlushEvent::Item(ParquetQueueItem::Write(write))) => (
            FlusherState { buffers: with_row(state.buffers, write), ..state },
            Action::Receive,
        ),
        (Phase::Collecting, FlushEvent::Item(ParquetQueueItem::Checkpoint(checkpoint))) =>
            next_upload(
            FlusherState { buffers: Map::empty(), ..state },
            checkpoint,
            pending_after(state, event),
            0,
        ),
        (Phase::Collecting, FlushEvent::Closed) => (
            FlusherState { phase: Phase::Stopped, ..state },
            Action::Stop,
        ),
        (Phase::Uploading { checkpoint, current, rest, bytes }, FlushEvent::Uploaded) =>
            next_upload(
            FlusherState {
                files: files::with_file(
                    state.files,
                    tables::table_code(current.table),
                    checkpoint.epoch,
                    stored_file(current, checkpoint.epoch),
                ),
                ..state
            },
            checkpoint,
            rest,
            bytes + current.size,
        ),
        (Phase::Uploading { .. }, FlushEvent::UploadFailed) => (
            FlusherState { phase: Phase::Stopped, ..state },
            Action::Fail(FlushError::Upload),
        ),
        (Phase::Finishing { checkpoint, bytes }, FlushEvent::Clock(now)) => (
            FlusherState {
                files: files::retained(
                    state.files,
                    state.tables,
                    checkpoint.epoch,
                    checkpoint.watermark,
                ),
                phase: if checkpoint.then_stop {
                    Phase::Stopped
                } else {
                    Phase::Collecting
                },
                ..state
            },
            Action::Report {
                report: report_of(state, checkpoint, bytes, now),
                then_stop: checkpoint.then_stop,
            },
        ),
        _ => (state, Action::Stop),
    }
}

/// The events that a flusher can take: those that answer what it asked for last. A write has
/// to fit into the buffer of its table, the number of stored bytes has to be countable, and a
/// checkpoint can only be finished where each file's table is known and where the watermark
/// is not less than a retention that matters.
pub open spec fn is_accepted(state: FlusherState, event: FlushEvent) -> bool {
    match (state.phase, event) {
        (Phase::Collecting, FlushEvent::Item(ParquetQueueItem::Write(write))) => batch::has_room(
            buffered_rows(state.buffers, write.table),
            write.key@,
            write.data@,
        ),
        (Phase::Collecting, FlushEvent::Item(ParquetQueueItem::Checkpoint(_))) => true,
        (Phase::Collecting, FlushEvent::Closed) => true,
        (Phase::Uploading { current, bytes, .. }, FlushEvent::Uploaded) => bytes + current.size
            <= usize::MAX,
        (Phase::Uploading { .. }, FlushEvent::UploadFailed) => true,
        (Phase::Finishing { checkpoint, .. }, FlushEvent::Clock(_)) => files::is_decidable(
            state.files,
            state.tables,
            checkpoint.epoch,
            checkpoint.watermark,
        ),
        _ => false,
    }
}

/// The rows of one table, and the table.
struct TableBuffer {
    table: char,
    builder: RecordBatchBuilder,
}

/// A file that is to be written.
struct PendingFile {
    table: char,
    file: String,
    stats: ParquetStats,
    batch: Batch,
}

/// A file that is being stored.
struct UploadingFile {
    table: char,
    file: String,
    stats: ParquetStats,
    size: usize,
}

/// What the flusher is at.
enum FlushPhase {
    Collecting,
    Uploading {
        checkpoint: ParquetCheckpoint,
        current: UploadingFile,
        rest: Vec<PendingFile>,
        bytes: usize,
    },
    Finishing { checkpoint: ParquetCheckpoint, bytes: usize },
    Stopped,
}

spec fn buffer_view(buffer: TableBuffer) -> Buffer {
    Buffer { table: buffer.table, rows: buffer.builder.rows() }
}

spec fn buffer_views(builders: Map<u32, TableBuffer>) -> Map<u32, Buffer> {
    builders.map_values(|b: TableBuffer| buffer_view(b))
}

spec fn pending_view(file: PendingFile) -> Pending {
    Pending {
        table: file.table,
        file: file.file@,
        stats: file.stats,
        columns: columns::batch_columns(file.batch),
    }
}

spec fn pending_views(list: Seq<PendingFile>) -> Seq<Pending> {
    list.map_values(|f: PendingFile| pending_view(f))
}

spec fn upload_view(file: UploadingFile) -> Upload {
    Upload { table: file.table, file: file.file@, stats: file.stats, size: file.size as nat }
}

spec fn phase_view(phase: FlushPhase) -> Phase {
    match phase {
        FlushPhase::Collecting => Phase::Collecting,
        FlushPhase::Uploading { checkpoint, current, rest, bytes } => Phase::Uploading {
            checkpoint,
            current: upload_view(current),
            rest: pending_views(rest@),
            bytes: bytes as nat,
        },
        FlushPhase::Finishing { checkpoint, bytes } => Phase::Finishing {
            checkpoint,
            bytes: bytes as nat,
        },
        FlushPhase::Stopped => Phase::Stopped,
    }
}

/// Whether every file holds rows of state.
spec fn all_state(list: Seq<PendingFile>) -> bool {
    forall|i: int|
        0 <= i < list.len() ==> columns::is_state_batch(
            columns::batch_columns((#[trigger] list[i]).batch),
        )
}

/// The files that the buffers give at the checkpoint of `epoch`.
fn drain_builders(builders: BTreeMap<u32, TableBuffer>, task_info: &TaskInfo, epoch: u32) -> (list:
    Vec<PendingFile>)
    requires
        forall|k: u32| #[trigger] builders@.contains_key(k) ==> builders@[k].builder.wf(),
    ensures
        pending_views(list@) == pending_of(buffer_views(builders@), task_info@, epoch),
        all_state(list@),
{
    let mut builders: BTreeMap<u32, TableBuffer> = builders;
    let ghost all = builders@;
    let ghost views = buffer_views(all);
    let ghost keys = ordered::ordered_keys(all.dom());
    let ghost pick = |b: Buffer| pending_from(b, task_info@, epoch);
    let ghost lists = ordered::ordered_values(views).map_values(pick);
    let mut codes: Vec<u32> = Vec::new();
    {
        let entries: Vec<(u32, &TableBuffer)> = ordered::entries(&builders);
        let mut k: usize = 0;
        while k < entries.len()
            invariant
                k <= entries@.len(),
                entries@.len() == keys.len(),
                codes@.len() == k,
                forall|j: int| 0 <= j < entries@.len() ==> (#[trigger] entries@[j]).0 == keys[j],
                forall|j: int| 0 <= j < k ==> codes@[j] == keys[j],
            decreases entries.len() - k,
        {
            codes.push(entries[k].0);
            k = k + 1;
        }
    }
    let mut list: Vec<PendingFile> = Vec::new();
    let mut i: usize = 0;
    proof {
        assert(views.dom() =~= all.dom());
        ordered::lemma_keys_below(all.dom(), 0x1_0000_0000);
        assert(codes@ =~= keys);
        assert forall|j: int| 0 <= j < keys.len() implies all.contains_key(#[trigger] keys[j]) by {
            assert(keys.contains(keys[j]));
        }
        assert(pending_views(list@) =~= ordered::concat(lists.take(0)));
    }
    while i < codes.len()
        invariant
            i <= codes@.len(),
            codes@ == keys,
            views == buffer_views(all),
            views.dom() == all.dom(),
            keys == ordered::ordered_keys(all.dom()),
            forall|k: u32| #[trigger] keys.contains(k) ==> all.contains_key(k),
            forall|j: int, k: int| 0 <= j < k < keys.len() ==> keys[j] < keys[k],
            pick == (|b: Buffer| pending_from(b, task_info@, epoch)),
            lists == ordered::ordered_values(views).map_values(pick),
            forall|k: u32| #[trigger] all.contains_key(k) ==> all[k].builder.wf(),
            forall|j: int|
                i <= j < keys.len() ==> builders@.contains_key(#[trigger] keys[j])
                    && builders@[keys[j]] == all[keys[j]],
            pending_views(list@) == ordered::concat(lists.take(i as int)),
            all_state(list@),
        decreases codes.len() - i,
    {
        let code: u32 = codes[i];
        let ghost before = list@;
        proof {
            assert(keys.contains(keys[i as int]));
            assert(views[code] == buffer_view(all[code]));
            assert(ordered::ordered_values(views)[i as int] == views[code]);
            assert(lists[i as int] == pick(views[code]));
            ordered::lemma_concat_push(lists.take(i as int), lists[i as int]);
            assert(lists.take(i as int).push(lists[i as int]) =~= lists.take(i + 1));
        }
        match builders.remove(&code) {
            Some(buffer) => {
                let ghost rows = buffer.builder.rows();
                let table: char = buffer.table;
                match buffer.builder.flush() {
                    Some((batch, stats)) => {
                        let file: String = table_checkpoint_path(task_info, table, epoch);
                        list.push(PendingFile { table, file, stats, batch });
                        proof {
                            batch::columns_keep_rows(rows);
                            let added = pending_view(list@.last());
                            assert(pending_views(list@) =~= pending_views(before).push(added));
                            assert(lists[i as int] =~= seq![added]);
                            assert(pending_views(before).push(added) =~= pending_views(before)
                                + seq![added]);
                        }
                    },
                    None => {
                        assert(lists[i as int] =~= Seq::empty());
                        assert(pending_views(list@) =~= pending_views(list@)
                            + Seq::<Pending>::empty());
                    },
                }
            },
            None => {
                assert(false);
            },
        }
        i = i + 1;
    }
    assert(lists.take(i as int) =~= lists);
    list
}

/// The entries of the metadata that stand for `list`.
fn metadata_entries(list: Vec<ParquetStoreData>) -> (entries: Vec<BackendData>)
    ensures
        types::entry_views(entries@) == entries_for(types::file_views(list@)),
{
    let mut entries: Vec<BackendData> = Vec::new();
    for file in it: list
        invariant
            it.seq() == list@,
            entries@.len() == it.index(),
            forall|i: int|
                0 <= i < it.index() ==> types::entry_view(#[trigger] entries@[i]) == Some(
                    list@[i]@,
                ),
    {
        entries.push(BackendData { backend_data: Some(file) });
    }
    assert(types::entry_views(entries@) =~= entries_for(types::file_views(list@)));
    entries
}

/// The flusher of one subtask.
pub struct ParquetFlusher {
    task_info: TaskInfo,
    table_descriptors: TableIndex,
    builders: BTreeMap<u32, TableBuffer>,
    current_files: FileMap,
    phase: FlushPhase,
}

impl View for ParquetFlusher {
    type V = FlusherState;

    closed spec fn view(&self) -> FlusherState {
        FlusherState {
            task: self.task_info@,
            tables: self.table_descriptors@,
            buffers: buffer_views(self.builders@),
            files: self.current_files@,
            phase: phase_view(self.phase),
        }
    }
}

impl ParquetFlusher {
    /// Every buffer is well formed, and every file that is to be written holds rows of state.
    pub closed spec fn wf(self) -> bool {
        &&& forall|k: u32| #[trigger]
            self.builders@.contains_key(k) ==> self.builders@[k].builder.wf()
        &&& match self.phase {
            FlushPhase::Uploading { rest, .. } => all_state(rest@),
            _ => true,
        }
    }

    /// A flusher that starts from `current_files` and has collected nothing.
    pub fn new(
        task_info: TaskInfo,
        tables: Vec<TableDescriptor>,
        current_files: FileMap,
    ) -> (flusher: ParquetFlusher)
        requires
            tables::all_named(types::table_views(tables@)),
        ensures
            flusher.wf(),
            flusher@ == (FlusherState {
                task: task_info@,
                tables: tables::indexed(types::table_views(tables@)),
                buffers: Map::empty(),
                files: current_files@,
                phase: Phase::Collecting,
            }),
    {
        let flusher = ParquetFlusher {
            task_info,
            table_descriptors: TableIndex::from_tables(tables),
            builders: BTreeMap::new(),
            current_files,
            phase: FlushPhase::Collecting,
        };
        assert(flusher@.buffers =~= Map::empty());
        flusher
    }

    /// Whether the flusher can take `event`.
    pub fn accepts(&self, event: &FlushEvent) -> (accepted: bool)
        requires
            self.wf(),
        ensures
            accepted == is_accepted(self@, *event),
    {
        match (&self.phase, event) {
            (FlushPhase::Collecting, FlushEvent::Item(ParquetQueueItem::Write(write))) => {
                let code: u32 = write.table as u32;
                match self.builders.get(&code) {
                    Some(buffer) => {
                        assert(self@.buffers[code] == buffer_view(*buffer));
                        buffer.builder.fits(&write.key, &write.data)
                    },
                    None => RecordBatchBuilder::default().fits(&write.key, &write.data),
                }
            },
            (FlushPhase::Collecting, FlushEvent::Item(ParquetQueueItem::Checkpoint(_))) => true,
            (FlushPhase::Collecting, FlushEvent::Closed) => true,
            (FlushPhase::Uploading { current, bytes, .. }, FlushEvent::Uploaded) => current.size
                <= usize::MAX - *bytes,
            (FlushPhase::Uploading { .. }, FlushEvent::UploadFailed) => true,
            (
                FlushPhase::Finishing { checkpoint, .. },
                FlushEvent::Clock(_),
            ) => self.current_files.can_retain(
                &self.table_descriptors,
                checkpoint.epoch,
                checkpoint.watermark,
            ),
            _ => false,
        }
    }

    /// Puts a write into the buffer of its table.
    fn collect(&mut self, write: ParquetWrite)
        requires
            old(self).wf(),
            batch::has_room(
                buffered_rows(old(self)@.buffers, write.table),
                write.key@,
                write.data@,
            ),
        ensures
            final(self).wf(),
            final(self)@ == (FlusherState {
                buffers: with_row(old(self)@.buffers, write),
                ..old(self)@
            }),
    {
        let code: u32 = write.table as u32;
        let ghost rows = buffered_rows(self@.buffers, write.table);
        let ghost row = written_row(write);
        let mut builder: RecordBatchBuilder = match self.builders.remove(&code) {
            Some(buffer) => {
                assert(old(self)@.buffers[code] == buffer_view(buffer));
                buffer.builder
            },
            None => RecordBatchBuilder::default(),
        };
        assert(builder.rows() == rows);
        builder.insert(write.key_hash, write.timestamp, write.key, write.data);
        self.builders.insert(code, TableBuffer { table: write.table, builder });
        assert(self@.buffers =~= old(self)@.buffers.insert(
            code,
            Buffer { table: write.table, rows: rows.push(row) },
        ));
    }

    /// Goes on with `pending`, once `bytes` are stored.
    fn go_on(
        &mut self,
        checkpoint: ParquetCheckpoint,
        pending: Vec<PendingFile>,
        bytes: usize,
    ) -> (action: FlushAction)
        requires
            old(self).wf(),
            all_state(pending@),
        ensures
            final(self).wf(),
            (final(self)@, action@) == next_upload(
                old(self)@,
                checkpoint,
                pending_views(pending@),
                bytes as nat,
            ),
            action matches FlushAction::Upload { contents, .. } ==> columns::file_holds(
                contents@,
                pending_views(pending@)[0].columns,
            ),
    {
        let mut pending: Vec<PendingFile> = pending;
        if pending.len() == 0 {
            self.phase = FlushPhase::Finishing { checkpoint, bytes };
            return FlushAction::ReadClock;
        }
        let ghost all = pending@;
        let file: PendingFile = pending.remove(0);
        assert(pending_view(file) == pending_views(all)[0]);
        match columns::encode_batch(&file.batch) {
            Ok(contents) => {
                let key: String = file.file.clone();
                self.phase = FlushPhase::Uploading {
                    checkpoint,
                    current: UploadingFile {
                        table: file.table,
                        file: file.file,
                        stats: file.stats,
                        size: contents.len(),
                    },
                    rest: pending,
                    bytes,
                };
                assert(pending_views(pending@) =~= pending_views(all).drop_first());
                FlushAction::Upload { key, contents }
            },
            Err(_) => {
                self.phase = FlushPhase::Stopped;
                FlushAction::Fail(FlushError::Encode)
            },
        }
    }

    /// Drops the files that the checkpoint does not need, and reports the others.
    fn finish(&mut self, checkpoint: ParquetCheckpoint, bytes: usize, now: u64) -> (completed:
        CheckpointCompleted)
        requires
            old(self).wf(),
            files::is_decidable(
                old(self)@.files,
                old(self)@.tables,
                checkpoint.epoch,
                checkpoint.watermark,
            ),
        ensures
            final(self).wf(),
            final(self)@ == (FlusherState {
                files: files::retained(
                    old(self)@.files,
                    old(self)@.tables,
                    checkpoint.epoch,
                    checkpoint.watermark,
                ),
                ..old(self)@
            }),
            report_view(completed) == report_of(old(self)@, checkpoint, bytes as nat, now),
    {
        let kept: Vec<ParquetStoreData> = self.current_files.retain(
            &self.table_descriptors,
            checkpoint.epoch,
            checkpoint.watermark,
        );
        let has_state: bool = kept.len() > 0;
        CheckpointCompleted {
            checkpoint_epoch: checkpoint.epoch,
            operator_id: self.task_info.operator_id.clone(),
            subtask_metadata: SubtaskCheckpointMetadata {
                subtask_index: self.task_info.task_index as u32,
                start_time: checkpoint.time,
                finish_time: now,
                has_state,
                tables: self.table_descriptors.descriptors(),
                watermark: checkpoint.watermark,
                backend_data: metadata_entries(kept),
                bytes: bytes as u64,
            },
        }
    }

    /// Takes an event and says what is to be done next.
    ///
    /// A file that is to be uploaded holds the rows that were collected for its table: they
    /// come back from it.
    pub fn step(&mut self, event: FlushEvent) -> (action: FlushAction)
        requires
            old(self).wf(),
            is_accepted(old(self)@, event),
        ensures
            final(self).wf(),
            (final(self)@, action@) == transition(old(self)@, event),
            action matches FlushAction::Upload { contents, .. } ==> columns::file_holds(
                contents@,
                pending_after(old(self)@, event)[0].columns,
            ),
    {
        let mut phase: FlushPhase = FlushPhase::Collecting;
        core::mem::swap(&mut self.phase, &mut phase);
        match (phase, event) {
            (FlushPhase::Collecting, FlushEvent::Item(ParquetQueueItem::Write(write))) => {
                self.collect(write);
                FlushAction::Receive
            },
            (
                FlushPhase::Collecting,
                FlushEvent::Item(ParquetQueueItem::Checkpoint(checkpoint)),
            ) => {
                let mut builders: BTreeMap<u32, TableBuffer> = BTreeMap::new();
                core::mem::swap(&mut self.builders, &mut builders);
                assert(self@.buffers =~= Map::empty());
                let pending: Vec<PendingFile> = drain_builders(
                    builders,
                    &self.task_info,
                    checkpoint.epoch,
                );
                self.go_on(checkpoint, pending, 0)
            },
            (FlushPhase::Collecting, FlushEvent::Closed) => {
                self.phase = FlushPhase::Stopped;
                FlushAction::Stop
            },
            (
                FlushPhase::Uploading { checkpoint, current, rest, bytes },
                FlushEvent::Uploaded,
            ) => {
                let mut table: String = String::new();
                table.push(current.table);
                assert(table@ =~= seq![current.table]);
                self.current_files.push(
                    current.table,
                    checkpoint.epoch,
                    ParquetStoreData {
                        epoch: checkpoint.epoch,
                        file: current.file,
                        table,
                        min_routing_key: current.stats.min_routing_key,
                        max_routing_key: current.stats.max_routing_key,
                        max_timestamp_micros: current.stats.max_timestamp,
                        min_required_timestamp_micros: None,
                    },
                );
                self.go_on(checkpoint, rest, bytes + current.size)
            },
            (FlushPhase::Uploading { .. }, FlushEvent::UploadFailed) => {
                self.phase = FlushPhase::Stopped;
                FlushAction::Fail(FlushError::Upload)
            },
            (FlushPhase::Finishing { checkpoint, bytes }, FlushEvent::Clock(now)) => {
                let completed: CheckpointCompleted = self.finish(checkpoint, bytes, now);
                if checkpoint.then_stop {
                    self.phase = FlushPhase::Stopped;
                }
                FlushAction::Report { completed, then_stop: checkpoint.then_stop }
            },
            _ => {
                assert(false);
                FlushAction::Stop
            },
        }
    }
}

/// A report is seen field by field, and nothing of it is left out.
pub proof fn reports_are_seen_as_they_are(completed: CheckpointCompleted, i: int)
    ensures
        ({
            let report = report_view(completed);
            let subtask = completed.subtask_metadata;
            &&& report.checkpoint_epoch == completed.checkpoint_epoch
            &&& report.operator_id == completed.operator_id@
            &&& report.subtask_index == subtask.subtask_index
            &&& report.start_time == subtask.start_time
            &&& report.finish_time == subtask.finish_time
            &&& report.has_state == subtask.has_state
            &&& report.watermark == subtask.watermark
            &&& report.bytes == subtask.bytes
            &&& report.tables.len() == subtask.tables@.len()
            &&& 0 <= i < subtask.tables@.len() ==> report.tables[i] == subtask.tables@[i]@
            &&& report.backend_data.len() == subtask.backend_data@.len()
            &&& 0 <= i < subtask.backend_data@.len() ==> match subtask.backend_data@[i].backend_data {
                Some(file) => report.backend_data[i] == Some(file@),
                None => report.backend_data[i] is None,
            }
        }),
{
}

/// What the flusher asks for is seen as it is.
pub proof fn actions_are_seen_as_they_are(action: FlushAction)
    ensures
        match action {
            FlushAction::Receive => action@ is Receive,
            FlushAction::Upload { key, contents } => action@ == (Action::Upload {
                key: key@,
                contents: contents@,
            }),
            FlushAction::ReadClock => action@ is ReadClock,
            FlushAction::Report { completed, then_stop } => action@ == (Action::Report {
                report: report_view(completed),
                then_stop,
            }),
            FlushAction::Stop => action@ is Stop,
            FlushAction::Fail(e) => action@ == Action::Fail(e),
        },
{
}

} // verus!
