//! What becomes of the values that are written: at the next checkpoint they are stored, and
//! from there they are read back.
use vstd::prelude::*;

use crate::backend;
use crate::batch;
use crate::columns;
use crate::files;
use crate::flusher;
use crate::flusher::FlushEvent;
use crate::ordered;
use crate::paths;
use crate::recovery;
use crate::tables;
use crate::triples;
use crate::types;
use crate::types::{
    KeyRange, ParquetCheckpoint, ParquetQueueItem, ParquetWrite, TableDeleteBehavior, TableType,
};

verus! {

/// What a flusher comes to, and all that it asked for, once it has taken `events`.
pub open spec fn run(state: flusher::FlusherState, events: Seq<FlushEvent>) -> (
    flusher::FlusherState,
    Seq<flusher::Action>,
)
    decreases events.len(),
{
    if events.len() == 0 {
        (state, Seq::empty())
    } else {
        let before = run(state, events.drop_last());
        let step = flusher::transition(before.0, events.last());
        (step.0, before.1.push(step.1))
    }
}

/// The buffers once all of `writes` are in them.
pub open spec fn after_writes(
    buffers: Map<u32, flusher::Buffer>,
    writes: Seq<ParquetWrite>,
) -> Map<u32, flusher::Buffer>
    decreases writes.len(),
{
    if writes.len() == 0 {
        buffers
    } else {
        flusher::with_row(after_writes(buffers, writes.drop_last()), writes.last())
    }
}

/// The rows that `writes` stand for, as far as they are for `table`, in order.
pub open spec fn rows_written(writes: Seq<ParquetWrite>, table: char) -> Seq<columns::DataRow> {
    writes.filter(|w: ParquetWrite| w.table == table).map_values(
        |w: ParquetWrite| flusher::written_row(w),
    )
}

/// The events that hand `writes` to a flusher.
pub open spec fn write_events(writes: Seq<ParquetWrite>) -> Seq<FlushEvent> {
    writes.map_values(|w: ParquetWrite| FlushEvent::Item(ParquetQueueItem::Write(w)))
}

proof fn lemma_rows_written_push(writes: Seq<ParquetWrite>, write: ParquetWrite, table: char)
    ensures
        rows_written(writes.push(write), table) == if write.table == table {
            rows_written(writes, table).push(flusher::written_row(write))
        } else {
            rows_written(writes, table)
        },
{
    reveal(Seq::filter);
    assert(writes.push(write).drop_last() =~= writes);
    assert(rows_written(writes.push(write), table) =~= if write.table == table {
        rows_written(writes, table).push(flusher::written_row(write))
    } else {
        rows_written(writes, table)
    });
}

/// A flusher that takes writes does nothing but add their rows, each to the buffer of its
/// table and in the order in which they come.
pub proof fn writes_are_buffered(state: flusher::FlusherState, writes: Seq<ParquetWrite>)
    requires
        state.phase is Collecting,
    ensures
        run(state, write_events(writes)).0 == (flusher::FlusherState {
            buffers: after_writes(state.buffers, writes),
            ..state
        }),
        forall|table: char| #[trigger]
            flusher::buffered_rows(after_writes(state.buffers, writes), table)
                == flusher::buffered_rows(state.buffers, table) + rows_written(writes, table),
    decreases writes.len(),
{
    if writes.len() == 0 {
        assert(write_events(writes) =~= Seq::empty());
        assert forall|table: char| #[trigger]
            flusher::buffered_rows(after_writes(state.buffers, writes), table)
                == flusher::buffered_rows(state.buffers, table) + rows_written(writes, table) by {
            reveal(Seq::filter);
            assert(flusher::buffered_rows(state.buffers, table) + rows_written(writes, table)
                =~= flusher::buffered_rows(state.buffers, table));
        }
    } else {
        let before = writes.drop_last();
        let write = writes.last();
        writes_are_buffered(state, before);
        assert(write_events(writes).drop_last() =~= write_events(before));
        assert(before.push(write) =~= writes);
        assert forall|table: char| #[trigger]
            flusher::buffered_rows(after_writes(state.buffers, writes), table)
                == flusher::buffered_rows(state.buffers, table) + rows_written(writes, table) by {
            let rows = flusher::buffered_rows(after_writes(state.buffers, before), table);
            assert(rows == flusher::buffered_rows(state.buffers, table) + rows_written(
                before,
                table,
            ));
            lemma_rows_written_push(before, write, table);
            if write.table == table {
                assert(rows.push(flusher::written_row(write)) =~= flusher::buffered_rows(
                    state.buffers,
                    table,
                ) + rows_written(before, table).push(flusher::written_row(write)));
            } else if tables::table_code(write.table) == tables::table_code(table) {
                tables::codes_differ(write.table, table);
            }
        }
    }
}

/// Whether every buffer stands under the code of its table.
pub open spec fn is_indexed(buffers: Map<u32, flusher::Buffer>) -> bool {
    forall|code: u32| #[trigger]
        buffers.contains_key(code) ==> tables::table_code(buffers[code].table) == code
}

/// Writes keep every buffer under the code of its table.
pub proof fn writes_keep_the_index(
    buffers: Map<u32, flusher::Buffer>,
    writes: Seq<ParquetWrite>,
)
    requires
        is_indexed(buffers),
    ensures
        is_indexed(after_writes(buffers, writes)),
    decreases writes.len(),
{
    if writes.len() > 0 {
        writes_keep_the_index(buffers, writes.drop_last());
    }
}

/// What is kept of the file that a buffer gives.
pub open spec fn new_file(
    buffer: flusher::Buffer,
    task: types::Task,
    epoch: u32,
) -> types::StoredFile {
    let stats = batch::stats_of(buffer.rows);
    types::StoredFile {
        epoch,
        file: paths::spec_table_checkpoint_path(task, buffer.table, epoch),
        table: seq![buffer.table],
        min_routing_key: stats.min_routing_key,
        max_routing_key: stats.max_routing_key,
        max_timestamp_micros: stats.max_timestamp,
        min_required_timestamp_micros: None,
    }
}

/// What is kept of a file that was to be written, once it is stored.
pub open spec fn stored_as(pending: flusher::Pending, epoch: u32) -> types::StoredFile {
    types::StoredFile {
        epoch,
        file: pending.file,
        table: seq![pending.table],
        min_routing_key: pending.stats.min_routing_key,
        max_routing_key: pending.stats.max_routing_key,
        max_timestamp_micros: pending.stats.max_timestamp,
        min_required_timestamp_micros: None,
    }
}

/// The files once all of `pending` are stored at the checkpoint of `epoch`.
pub open spec fn after_uploads(
    files: Map<u32, Map<u32, Seq<types::StoredFile>>>,
    pending: Seq<flusher::Pending>,
    epoch: u32,
) -> Map<u32, Map<u32, Seq<types::StoredFile>>>
    decreases pending.len(),
{
    if pending.len() == 0 {
        files
    } else {
        files::with_file(
            after_uploads(files, pending.drop_last(), epoch),
            tables::table_code(pending.last().table),
            epoch,
            stored_as(pending.last(), epoch),
        )
    }
}

/// The number of bytes of the files that `pending` are written as.
pub open spec fn stored_bytes(pending: Seq<flusher::Pending>) -> nat
    decreases pending.len(),
{
    if pending.len() == 0 {
        0
    } else {
        stored_bytes(pending.drop_last()) + (columns::parquet_file(pending.last().columns)->0).len()
    }
}

/// Whether a file can be made of each of `pending`.
pub open spec fn is_encodable(pending: Seq<flusher::Pending>) -> bool {
    forall|i: int|
        0 <= i < pending.len() ==> columns::parquet_file((#[trigger] pending[i]).columns) is Some
}

/// The events of a checkpoint at which `uploads` files were stored so far.
pub open spec fn checkpoint_events(checkpoint: ParquetCheckpoint, uploads: nat) -> Seq<FlushEvent> {
    seq![FlushEvent::Item(ParquetQueueItem::Checkpoint(checkpoint))] + Seq::new(
        uploads,
        |i: int| FlushEvent::Uploaded,
    )
}

/// A checkpoint stores a file for each buffer that has rows, one after the other, with the
/// contents that its rows are written as. Once all are stored, the flusher has them among its
/// files, its buffers are empty, and it asks for the time.
pub proof fn checkpoints_store_every_buffer(
    state: flusher::FlusherState,
    checkpoint: ParquetCheckpoint,
    uploads: nat,
)
    requires
        state.phase is Collecting,
        is_encodable(flusher::pending_of(state.buffers, state.task, checkpoint.epoch)),
        uploads <= flusher::pending_of(state.buffers, state.task, checkpoint.epoch).len(),
    ensures
        ({
            let pending = flusher::pending_of(state.buffers, state.task, checkpoint.epoch);
            let (end, actions) = run(state, checkpoint_events(checkpoint, uploads));
            let sofar = flusher::FlusherState {
                buffers: Map::empty(),
                files: after_uploads(
                    state.files,
                    pending.take(uploads as int),
                    checkpoint.epoch,
                ),
                ..state
            };
            let bytes = stored_bytes(pending.take(uploads as int));
            (end, actions.last()) == flusher::next_upload(
                sofar,
                checkpoint,
                pending.skip(uploads as int),
                bytes,
            )
        }),
    decreases uploads,
{
    let pending = flusher::pending_of(state.buffers, state.task, checkpoint.epoch);
    let events = checkpoint_events(checkpoint, uploads);
    if uploads == 0 {
        assert(events.drop_last() =~= Seq::empty());
        assert(events.last() == FlushEvent::Item(ParquetQueueItem::Checkpoint(checkpoint)));
        assert(pending.skip(0) =~= pending);
        assert(run(state, events.drop_last()).0 == state);
    } else {
        let n = (uploads - 1) as nat;
        checkpoints_store_every_buffer(state, checkpoint, n);
        assert(events.drop_last() =~= checkpoint_events(checkpoint, n));
        assert(events.last() == FlushEvent::Uploaded);
        assert(pending.skip(n as int).drop_first() =~= pending.skip(uploads as int));
        assert(pending.skip(n as int)[0] == pending[n as int]);
        assert(pending.take(uploads as int).drop_last() =~= pending.take(n as int));
        assert(columns::parquet_file(pending[n as int].columns) is Some);
    }
}

/// The files, at most one, that a table gets at the checkpoint of `epoch`.
pub open spec fn new_files(
    buffers: Map<u32, flusher::Buffer>,
    task: types::Task,
    table: char,
    epoch: u32,
) -> Seq<types::StoredFile> {
    let rows = flusher::buffered_rows(buffers, table);
    if rows.len() > 0 {
        seq![new_file(flusher::Buffer { table, rows }, task, epoch)]
    } else {
        Seq::empty()
    }
}

/// The files that are to be written for the buffer under `code`.
spec fn pending_under(
    buffers: Map<u32, flusher::Buffer>,
    task: types::Task,
    epoch: u32,
    code: u32,
) -> Seq<flusher::Pending> {
    if buffers.contains_key(code) {
        flusher::pending_from(buffers[code], task, epoch)
    } else {
        Seq::empty()
    }
}

proof fn lemma_pending_by_code(
    buffers: Map<u32, flusher::Buffer>,
    task: types::Task,
    epoch: u32,
)
    ensures
        flusher::pending_of(buffers, task, epoch) == ordered::lists_below(
            |code: u32| pending_under(buffers, task, epoch, code),
            0x1_0000_0000,
        ),
{
    let pick = |code: u32| flusher::pending_from(buffers[code], task, epoch);
    let keys = ordered::ordered_keys(buffers.dom());
    assert(ordered::ordered_values(buffers).map_values(
        |b: flusher::Buffer| flusher::pending_from(b, task, epoch),
    ) =~= keys.map_values(pick));
    ordered::lemma_lists_below(
        buffers.dom(),
        pick,
        |code: u32| pending_under(buffers, task, epoch, code),
        0x1_0000_0000,
    );
}

/// The files after those of the buffers whose codes are less than `bound` are stored.
#[verifier::rlimit(30)]
proof fn lemma_uploads_by_code(
    files: Map<u32, Map<u32, Seq<types::StoredFile>>>,
    buffers: Map<u32, flusher::Buffer>,
    task: types::Task,
    epoch: u32,
    bound: nat,
)
    requires
        is_indexed(buffers),
        recovery::is_orderly(files, epoch),
        bound <= 0x1_0000_0000,
    ensures
        ({
            let pending = ordered::lists_below(
                |code: u32| pending_under(buffers, task, epoch, code),
                bound,
            );
            let stored = after_uploads(files, pending, epoch);
            &&& recovery::is_orderly(stored, epoch)
            &&& forall|table: char| #[trigger]
                files::filed_under(stored, tables::table_code(table), epoch) == files::filed_under(
                    files,
                    tables::table_code(table),
                    epoch,
                ) + if tables::table_code(table) < bound {
                    new_files(buffers, task, table, epoch)
                } else {
                    Seq::empty()
                }
            &&& forall|table: char| #[trigger]
                files::files_of(stored, tables::table_code(table)) == files::files_of(
                    files,
                    tables::table_code(table),
                ) + if tables::table_code(table) < bound {
                    new_files(buffers, task, table, epoch)
                } else {
                    Seq::empty()
                }
        }),
    decreases bound,
{
    let lists = |code: u32| pending_under(buffers, task, epoch, code);
    if bound == 0 {
        assert forall|table: char| #[trigger]
            files::files_of(files, tables::table_code(table)) == files::files_of(
                files,
                tables::table_code(table),
            ) + Seq::<types::StoredFile>::empty() by {
            assert(files::files_of(files, tables::table_code(table)) + Seq::<
                types::StoredFile,
            >::empty() =~= files::files_of(files, tables::table_code(table)));
        }
        assert forall|table: char| #[trigger]
            files::filed_under(files, tables::table_code(table), epoch) == files::filed_under(
                files,
                tables::table_code(table),
                epoch,
            ) + Seq::<types::StoredFile>::empty() by {
            assert(files::filed_under(files, tables::table_code(table), epoch) + Seq::<
                types::StoredFile,
            >::empty() =~= files::filed_under(files, tables::table_code(table), epoch));
        }
    } else {
        let code = (bound - 1) as u32;
        let before = ordered::lists_below(lists, code as nat);
        let pending = ordered::lists_below(lists, bound);
        let earlier = after_uploads(files, before, epoch);
        let stored = after_uploads(files, pending, epoch);
        lemma_uploads_by_code(files, buffers, task, epoch, code as nat);
        if lists(code).len() > 0 {
            let buffer = buffers[code];
            let file = new_file(buffer, task, epoch);
            assert(pending.drop_last() =~= before);
            assert(pending.last() == lists(code)[0]);
            assert(tables::table_code(buffer.table) == code);
            assert(stored_as(pending.last(), epoch) == file);
            assert(backend::file_code(file) == code);
            assert(stored == files::with_file(earlier, code, epoch, file));
            recovery::storing_keeps_files_orderly(earlier, epoch, file);
            files::new_files_come_last(earlier, code, epoch, file);
            assert forall|table: char| #[trigger]
                files::filed_under(stored, tables::table_code(table), epoch) == files::filed_under(
                    files,
                    tables::table_code(table),
                    epoch,
                ) + if tables::table_code(table) < bound {
                    new_files(buffers, task, table, epoch)
                } else {
                    Seq::empty()
                } by {
                let old = files::filed_under(files, tables::table_code(table), epoch);
                assert(files::filed_under(earlier, tables::table_code(table), epoch) == old + if
                    tables::table_code(table) < code {
                    new_files(buffers, task, table, epoch)
                } else {
                    Seq::empty()
                });
                if tables::table_code(table) == code {
                    tables::codes_differ(table, buffer.table);
                    assert((old + Seq::<types::StoredFile>::empty()).push(file) =~= old
                        + seq![file]);
                }
            }
            assert forall|table: char| #[trigger]
                files::files_of(stored, tables::table_code(table)) == files::files_of(
                    files,
                    tables::table_code(table),
                ) + if tables::table_code(table) < bound {
                    new_files(buffers, task, table, epoch)
                } else {
                    Seq::empty()
                } by {
                let old = files::files_of(files, tables::table_code(table));
                assert(files::files_of(earlier, tables::table_code(table)) == old + if
                    tables::table_code(table) < code {
                    new_files(buffers, task, table, epoch)
                } else {
                    Seq::empty()
                });
                if tables::table_code(table) == code {
                    tables::codes_differ(table, buffer.table);
                    assert((old + Seq::<types::StoredFile>::empty()).push(file) =~= old
                        + seq![file]);
                }
            }
        } else {
            assert(pending =~= before);
            assert forall|table: char| #[trigger]
                files::filed_under(stored, tables::table_code(table), epoch) == files::filed_under(
                    files,
                    tables::table_code(table),
                    epoch,
                ) + if tables::table_code(table) < bound {
                    new_files(buffers, task, table, epoch)
                } else {
                    Seq::empty()
                } by {
                assert(files::filed_under(earlier, tables::table_code(table), epoch)
                    == files::filed_under(files, tables::table_code(table), epoch) + if
                    tables::table_code(table) < code {
                    new_files(buffers, task, table, epoch)
                } else {
                    Seq::empty()
                });
                if tables::table_code(table) == code {
                    assert(flusher::buffered_rows(buffers, table).len() == 0);
                }
            }
            assert forall|table: char| #[trigger]
                files::files_of(stored, tables::table_code(table)) == files::files_of(
                    files,
                    tables::table_code(table),
                ) + if tables::table_code(table) < bound {
                    new_files(buffers, task, table, epoch)
                } else {
                    Seq::empty()
                } by {
                assert(files::files_of(earlier, tables::table_code(table)) == files::files_of(
                    files,
                    tables::table_code(table),
                ) + if tables::table_code(table) < code {
                    new_files(buffers, task, table, epoch)
                } else {
                    Seq::empty()
                });
                if tables::table_code(table) == code {
                    assert(flusher::buffered_rows(buffers, table).len() == 0);
                }
            }
        }
    }
}

/// Once all files of a checkpoint are stored, each table that was written to has one file more,
/// behind those that it had; the other tables have what they had.
pub proof fn each_table_gets_one_file(
    files: Map<u32, Map<u32, Seq<types::StoredFile>>>,
    buffers: Map<u32, flusher::Buffer>,
    task: types::Task,
    epoch: u32,
    table: char,
)
    requires
        is_indexed(buffers),
        recovery::is_orderly(files, epoch),
    ensures
        recovery::is_orderly(
            after_uploads(files, flusher::pending_of(buffers, task, epoch), epoch),
            epoch,
        ),
        files::files_of(
            after_uploads(files, flusher::pending_of(buffers, task, epoch), epoch),
            tables::table_code(table),
        ) == files::files_of(files, tables::table_code(table)) + new_files(
            buffers,
            task,
            table,
            epoch,
        ),
        files::filed_under(
            after_uploads(files, flusher::pending_of(buffers, task, epoch), epoch),
            tables::table_code(table),
            epoch,
        ) == files::filed_under(files, tables::table_code(table), epoch) + new_files(
            buffers,
            task,
            table,
            epoch,
        ),
{
    lemma_pending_by_code(buffers, task, epoch);
    lemma_uploads_by_code(files, buffers, task, epoch, 0x1_0000_0000);
    let stored = after_uploads(files, flusher::pending_of(buffers, task, epoch), epoch);
    assert(tables::table_code(table) < 0x1_0000_0000);
    assert(files::files_of(stored, tables::table_code(table)) == files::files_of(
        files,
        tables::table_code(table),
    ) + new_files(buffers, task, table, epoch));
    assert(files::filed_under(stored, tables::table_code(table), epoch) == files::filed_under(
        files,
        tables::table_code(table),
        epoch,
    ) + new_files(buffers, task, table, epoch));
}

/// What is kept of a new file are the bounds of its rows.
pub proof fn new_files_are_described(buffer: flusher::Buffer, task: types::Task, epoch: u32)
    ensures
        recovery::describes(new_file(buffer, task, epoch), buffer.rows),
        backend::file_code(new_file(buffer, task, epoch)) == tables::table_code(buffer.table),
{
}

proof fn lemma_run_add(
    state: flusher::FlusherState,
    events: Seq<FlushEvent>,
    more: Seq<FlushEvent>,
)
    ensures
        run(state, events + more).0 == run(run(state, events).0, more).0,
        run(state, events + more).1 == run(state, events).1 + run(run(state, events).0, more).1,
    decreases more.len(),
{
    if more.len() == 0 {
        assert(events + more =~= events);
        assert(run(state, events).1 + Seq::<flusher::Action>::empty() =~= run(state, events).1);
    } else {
        lemma_run_add(state, events, more.drop_last());
        assert((events + more).drop_last() =~= events + more.drop_last());
        let before = run(run(state, events).0, more.drop_last());
        let step = flusher::transition(before.0, more.last());
        assert(run(state, events).1 + before.1.push(step.1) =~= (run(state, events).1
            + before.1).push(step.1));
    }
}

/// The events of taking `writes` and then a checkpoint, at which `uploads` files are stored and
/// which is finished at `now`.
pub open spec fn whole_checkpoint(
    writes: Seq<ParquetWrite>,
    checkpoint: ParquetCheckpoint,
    uploads: nat,
    now: u64,
) -> Seq<FlushEvent> {
    write_events(writes) + checkpoint_events(checkpoint, uploads) + seq![FlushEvent::Clock(now)]
}

/// The files that a report lists.
pub open spec fn reported(report: flusher::Report) -> Seq<types::StoredFile> {
    report.backend_data.map_values(|entry: Option<types::StoredFile>| entry->0)
}

/// A checkpoint after some writes ends with a report of all that is then left, and of how many
/// bytes were stored; the flusher is left with the files that it reports.
pub proof fn checkpoints_report_what_is_left(
    state: flusher::FlusherState,
    writes: Seq<ParquetWrite>,
    checkpoint: ParquetCheckpoint,
    now: u64,
)
    requires
        state.phase is Collecting,
        is_encodable(
            flusher::pending_of(
                after_writes(state.buffers, writes),
                state.task,
                checkpoint.epoch,
            ),
        ),
    ensures
        ({
            let pending = flusher::pending_of(
                after_writes(state.buffers, writes),
                state.task,
                checkpoint.epoch,
            );
            let stored = after_uploads(state.files, pending, checkpoint.epoch);
            let (end, actions) = run(
                state,
                whole_checkpoint(writes, checkpoint, pending.len(), now),
            );
            &&& end.files == files::retained(
                stored,
                state.tables,
                checkpoint.epoch,
                checkpoint.watermark,
            )
            &&& end.buffers == Map::<u32, flusher::Buffer>::empty()
            &&& actions.last() is Report
            &&& reported(actions.last()->report) == files::kept_files(
                stored,
                state.tables,
                checkpoint.epoch,
                checkpoint.watermark,
            )
            &&& reported(actions.last()->report) == files::all_files(end.files)
            &&& actions.last()->report.bytes == stored_bytes(pending) as u64
        }),
{
    let buffers = after_writes(state.buffers, writes);
    let pending = flusher::pending_of(buffers, state.task, checkpoint.epoch);
    let first = write_events(writes);
    let second = checkpoint_events(checkpoint, pending.len());
    let third = seq![FlushEvent::Clock(now)];
    let collected = flusher::FlusherState { buffers, ..state };
    writes_are_buffered(state, writes);
    checkpoints_store_every_buffer(collected, checkpoint, pending.len());
    assert(pending.take(pending.len() as int) =~= pending);
    lemma_run_add(state, first, second);
    let finishing = run(state, first + second).0;
    assert(third.drop_last() =~= Seq::<FlushEvent>::empty());
    assert(run(finishing, third.drop_last()) == (finishing, Seq::<flusher::Action>::empty()));
    lemma_run_add(state, first + second, third);
    let stored = after_uploads(state.files, pending, checkpoint.epoch);
    let kept = files::kept_files(stored, state.tables, checkpoint.epoch, checkpoint.watermark);
    assert(flusher::entries_for(kept).map_values(|entry: Option<types::StoredFile>| entry->0)
        =~= kept);
    files::checkpoints_list_what_is_left(
        stored,
        state.tables,
        checkpoint.epoch,
        checkpoint.watermark,
    );
}

/// The files of `table` from before that a checkpoint goes on with: none where the table is
/// global, for it is written whole each time.
pub open spec fn earlier_files(state: flusher::FlusherState, table: char) -> Seq<
    types::StoredFile,
> {
    if state.tables[tables::table_code(table)].table_type == TableType::Global {
        Seq::empty()
    } else {
        files::files_of(state.files, tables::table_code(table))
    }
}

/// Those of `list` that are not expired at the checkpoint.
pub open spec fn surviving(
    state: flusher::FlusherState,
    checkpoint: ParquetCheckpoint,
    table: char,
    list: Seq<types::StoredFile>,
) -> Seq<types::StoredFile> {
    list.filter(
        |f: types::StoredFile|
            !files::is_expired(
                state.tables[tables::table_code(table)],
                checkpoint.watermark,
                f,
            ),
    )
}

/// The files of a table that are left after a checkpoint are those that are not expired: the
/// new one, and before it, unless the table is global, those that were there.
pub proof fn checkpoints_leave_what_is_not_expired(
    state: flusher::FlusherState,
    buffers: Map<u32, flusher::Buffer>,
    checkpoint: ParquetCheckpoint,
    table: char,
)
    requires
        is_indexed(buffers),
        recovery::is_orderly(state.files, checkpoint.epoch),
        files::filed_under(state.files, tables::table_code(table), checkpoint.epoch).len() == 0,
    ensures
        files::files_of(
            files::retained(
                after_uploads(
                    state.files,
                    flusher::pending_of(buffers, state.task, checkpoint.epoch),
                    checkpoint.epoch,
                ),
                state.tables,
                checkpoint.epoch,
                checkpoint.watermark,
            ),
            tables::table_code(table),
        ) == surviving(
            state,
            checkpoint,
            table,
            earlier_files(state, table) + new_files(
                buffers,
                state.task,
                table,
                checkpoint.epoch,
            ),
        ),
{
    let code = tables::table_code(table);
    let pending = flusher::pending_of(buffers, state.task, checkpoint.epoch);
    let stored = after_uploads(state.files, pending, checkpoint.epoch);
    let fresh = new_files(buffers, state.task, table, checkpoint.epoch);
    let left = earlier_files(state, table) + fresh;
    each_table_gets_one_file(state.files, buffers, state.task, checkpoint.epoch, table);
    files::tables_are_left_with_what_is_kept(
        stored,
        state.tables,
        checkpoint.epoch,
        checkpoint.watermark,
        code,
    );
    if state.tables[code].table_type == TableType::Global {
        assert(left =~= fresh);
        assert(files::filed_under(state.files, code, checkpoint.epoch) + fresh =~= fresh);
        if stored.contains_key(code) {
            files::global_tables_keep_the_latest_files_alone(
                stored[code],
                state.tables[code],
                checkpoint.epoch,
                checkpoint.watermark,
            );
        } else {
            assert(left =~= Seq::<types::StoredFile>::empty());
            reveal(Seq::filter);
        }
    } else {
        if stored.contains_key(code) {
            files::ordinary_tables_lose_expired_files_alone(
                stored[code],
                state.tables[code],
                checkpoint.epoch,
                checkpoint.watermark,
            );
        } else {
            assert(left =~= Seq::<types::StoredFile>::empty());
            reveal(Seq::filter);
        }
    }
}

/// What the files hold after a checkpoint of `epoch` at which `written` was stored, where
/// `rows` tells what the earlier files hold.
pub open spec fn rows_after(
    rows: spec_fn(types::StoredFile) -> Seq<columns::DataRow>,
    epoch: u32,
    written: Seq<columns::DataRow>,
) -> spec_fn(types::StoredFile) -> Seq<columns::DataRow> {
    |f: types::StoredFile|
        if f.epoch == epoch {
            written
        } else {
            rows(f)
        }
}

/// All rows of `table` that a checkpoint after `writes` finds in its buffer.
pub open spec fn all_written(
    state: flusher::FlusherState,
    writes: Seq<ParquetWrite>,
    table: char,
) -> Seq<columns::DataRow> {
    flusher::buffered_rows(state.buffers, table) + rows_written(writes, table)
}

/// The files of `table`, of which a checkpoint after `writes` keeps those that are not expired.
pub open spec fn candidates(
    state: flusher::FlusherState,
    writes: Seq<ParquetWrite>,
    checkpoint: ParquetCheckpoint,
    table: char,
) -> Seq<types::StoredFile> {
    earlier_files(state, table) + new_files(
        after_writes(state.buffers, writes),
        state.task,
        table,
        checkpoint.epoch,
    )
}

/// Whether a checkpoint after `writes` can be written, and `storage` then has its file of
/// `table`, and the earlier files of the table with the rows that `rows` tells. The earlier
/// files are from earlier epochs.
pub open spec fn is_written(
    state: flusher::FlusherState,
    writes: Seq<ParquetWrite>,
    checkpoint: ParquetCheckpoint,
    table: char,
    rows: spec_fn(types::StoredFile) -> Seq<columns::DataRow>,
    storage: spec_fn(Seq<char>) -> Seq<u8>,
) -> bool {
    &&& is_encodable(
        flusher::pending_of(after_writes(state.buffers, writes), state.task, checkpoint.epoch),
    )
    &&& files::filed_under(state.files, tables::table_code(table), checkpoint.epoch).len() == 0
    &&& forall|f: types::StoredFile| #[trigger]
        earlier_files(state, table).contains(f) ==> f.epoch < checkpoint.epoch
    &&& recovery::is_stored(earlier_files(state, table), rows, storage)
    &&& all_written(state, writes, table).len() > 0 ==> columns::file_holds(
        storage(paths::spec_table_checkpoint_path(state.task, table, checkpoint.epoch)),
        batch::state_columns(all_written(state, writes, table)),
    )
}

/// The files of `table` that whoever starts from the report of a checkpoint after `writes`
/// reads.
pub open spec fn contents_after(
    state: flusher::FlusherState,
    writes: Seq<ParquetWrite>,
    checkpoint: ParquetCheckpoint,
    now: u64,
    table: char,
    range: KeyRange,
    storage: spec_fn(Seq<char>) -> Seq<u8>,
) -> Seq<Seq<u8>> {
    let uploads = flusher::pending_of(
        after_writes(state.buffers, writes),
        state.task,
        checkpoint.epoch,
    ).len();
    let actions = run(state, whole_checkpoint(writes, checkpoint, uploads, now)).1;
    let restored = backend::restored(reported(actions.last()->report), state.tables, range);
    recovery::contents_in(files::files_of(restored, tables::table_code(table)), storage)
}

/// After writes and a checkpoint, whoever starts from what the checkpoint reports reads from a
/// table, in any range of routing keys, all rows of the files of the table that are not
/// expired, in the order in which they were written. The file of the checkpoint itself holds
/// what was written.
#[verifier::spinoff_prover]
#[verifier::rlimit(30)]
pub proof fn what_is_kept_is_read_back(
    state: flusher::FlusherState,
    writes: Seq<ParquetWrite>,
    checkpoint: ParquetCheckpoint,
    now: u64,
    table: char,
    range: KeyRange,
    rows: spec_fn(types::StoredFile) -> Seq<columns::DataRow>,
    storage: spec_fn(Seq<char>) -> Seq<u8>,
)
    requires
        state.phase is Collecting,
        is_indexed(state.buffers),
        recovery::is_orderly(state.files, checkpoint.epoch),
        is_written(state, writes, checkpoint, table, rows, storage),
    ensures
        triples::all_readable(
            contents_after(state, writes, checkpoint, now, table, range, storage),
        ),
        triples::decode_files(
            contents_after(state, writes, checkpoint, now, table, range, storage),
            range,
        ) == Ok::<Seq<triples::Triple>, triples::DecodeError>(
            triples::selected(
                recovery::rows_in(
                    surviving(
                        state,
                        checkpoint,
                        table,
                        candidates(state, writes, checkpoint, table),
                    ),
                    rows_after(rows, checkpoint.epoch, all_written(state, writes, table)),
                ),
                range,
            ),
        ),
{
    let code = tables::table_code(table);
    let epoch = checkpoint.epoch;
    let buffers = after_writes(state.buffers, writes);
    let pending = flusher::pending_of(buffers, state.task, epoch);
    let stored = after_uploads(state.files, pending, epoch);
    let listed = files::kept_files(stored, state.tables, epoch, checkpoint.watermark);
    let earlier = earlier_files(state, table);
    let fresh = new_files(buffers, state.task, table, epoch);
    let all = candidates(state, writes, checkpoint, table);
    let left = surviving(state, checkpoint, table, all);
    let written = all_written(state, writes, table);
    let after = rows_after(rows, epoch, written);
    writes_are_buffered(state, writes);
    assert(flusher::buffered_rows(buffers, table) == written);
    writes_keep_the_index(state.buffers, writes);
    checkpoints_report_what_is_left(state, writes, checkpoint, now);
    each_table_gets_one_file(state.files, buffers, state.task, epoch, table);
    checkpoints_leave_what_is_not_expired(state, buffers, checkpoint, table);
    recovery::restarting_finds_what_is_left(
        stored,
        state.tables,
        epoch,
        checkpoint.watermark,
        code,
    );
    assert forall|i: int| 0 <= i < left.len() implies {
        &&& recovery::describes(#[trigger] left[i], after(left[i]))
        &&& columns::file_holds(storage(left[i].file), batch::state_columns(after(left[i])))
    } by {
        files::lemma_filter_subset(
            all,
            |f: types::StoredFile|
                !files::is_expired(state.tables[code], checkpoint.watermark, f),
            i,
        );
        let j = choose|j: int| 0 <= j < all.len() && all[j] == left[i];
        if j < earlier.len() {
            assert(left[i] == earlier[j]);
            assert(earlier.contains(earlier[j]));
            assert(recovery::describes(earlier[j], rows(earlier[j])));
        } else {
            assert(left[i] == fresh[0]);
        }
    }
    recovery::restarting_loses_nothing(listed, state.tables, range, code, after, storage);
}

/// The rows of the earlier files and of the new one, if there is one.
proof fn lemma_rows_of_candidates(
    earlier: Seq<types::StoredFile>,
    fresh: Seq<types::StoredFile>,
    rows: spec_fn(types::StoredFile) -> Seq<columns::DataRow>,
    epoch: u32,
    written: Seq<columns::DataRow>,
)
    requires
        forall|i: int| 0 <= i < earlier.len() ==> (#[trigger] earlier[i]).epoch < epoch,
        fresh.len() == if written.len() > 0 {
            1int
        } else {
            0
        },
        written.len() > 0 ==> fresh[0].epoch == epoch,
    ensures
        recovery::rows_in(earlier + fresh, rows_after(rows, epoch, written)) == recovery::rows_in(
            earlier,
            rows,
        ) + written,
{
    let after = rows_after(rows, epoch, written);
    assert(earlier.map_values(after) =~= earlier.map_values(rows));
    if written.len() > 0 {
        assert(earlier + fresh =~= earlier.push(fresh[0]));
        recovery::lemma_rows_push(earlier, fresh[0], after);
    } else {
        assert(earlier + fresh =~= earlier);
        assert(recovery::rows_in(earlier, rows) + written =~= recovery::rows_in(earlier, rows));
    }
}

/// What is written to a table is read back: where none of the table's files is expired at the
/// checkpoint, all that the table held before (nothing, if it is global) and behind it all that
/// was written is read, in the order in which it was written.
#[verifier::spinoff_prover]
#[verifier::rlimit(30)]
pub proof fn what_is_written_is_read_back(
    state: flusher::FlusherState,
    writes: Seq<ParquetWrite>,
    checkpoint: ParquetCheckpoint,
    now: u64,
    table: char,
    range: KeyRange,
    rows: spec_fn(types::StoredFile) -> Seq<columns::DataRow>,
    storage: spec_fn(Seq<char>) -> Seq<u8>,
)
    requires
        state.phase is Collecting,
        is_indexed(state.buffers),
        recovery::is_orderly(state.files, checkpoint.epoch),
        is_written(state, writes, checkpoint, table, rows, storage),
        forall|f: types::StoredFile| #[trigger]
            candidates(state, writes, checkpoint, table).contains(f) ==> !files::is_expired(
                state.tables[tables::table_code(table)],
                checkpoint.watermark,
                f,
            ),
    ensures
        triples::all_readable(
            contents_after(state, writes, checkpoint, now, table, range, storage),
        ),
        triples::decode_files(
            contents_after(state, writes, checkpoint, now, table, range, storage),
            range,
        ) == Ok::<Seq<triples::Triple>, triples::DecodeError>(
            triples::selected(
                recovery::rows_in(earlier_files(state, table), rows) + all_written(
                    state,
                    writes,
                    table,
                ),
                range,
            ),
        ),
{
    let earlier = earlier_files(state, table);
    let buffers = after_writes(state.buffers, writes);
    let fresh = new_files(buffers, state.task, table, checkpoint.epoch);
    let all = candidates(state, writes, checkpoint, table);
    let written = all_written(state, writes, table);
    what_is_kept_is_read_back(state, writes, checkpoint, now, table, range, rows, storage);
    assert(surviving(state, checkpoint, table, all) == all) by {
        let keep = |f: types::StoredFile|
            !files::is_expired(
                state.tables[tables::table_code(table)],
                checkpoint.watermark,
                f,
            );
        assert forall|i: int| 0 <= i < all.len() implies keep(#[trigger] all[i]) by {
            assert(all.contains(all[i]));
        }
        recovery::lemma_filter_all(all, keep);
    }
    assert(flusher::buffered_rows(buffers, table) == written) by {
        writes_are_buffered(state, writes);
    }
    assert forall|i: int| 0 <= i < earlier.len() implies (#[trigger] earlier[i]).epoch
        < checkpoint.epoch by {
        assert(earlier.contains(earlier[i]));
    }
    lemma_rows_of_candidates(earlier, fresh, rows, checkpoint.epoch, written);
}

/// Whether a flusher that has come to `epoch` is in order: every buffer stands under the code
/// of its table, the files are orderly, and a checkpoint that is under way is that of `epoch`.
pub open spec fn is_in_order(state: flusher::FlusherState, epoch: u32) -> bool {
    &&& is_indexed(state.buffers)
    &&& recovery::is_orderly(state.files, epoch)
    &&& match state.phase {
        flusher::Phase::Uploading { checkpoint, .. } => checkpoint.epoch == epoch,
        flusher::Phase::Finishing { checkpoint, .. } => checkpoint.epoch == epoch,
        _ => true,
    }
}

/// The epoch that a flusher has come to once it has taken `event`.
pub open spec fn epoch_after(epoch: u32, event: FlushEvent) -> u32 {
    match event {
        FlushEvent::Item(ParquetQueueItem::Checkpoint(checkpoint)) => checkpoint.epoch,
        _ => epoch,
    }
}

/// A flusher stays in order whatever it is told, as long as the epochs of its checkpoints do
/// not go back.
pub proof fn flushers_stay_in_order(
    state: flusher::FlusherState,
    event: FlushEvent,
    epoch: u32,
)
    requires
        is_in_order(state, epoch),
        flusher::is_accepted(state, event),
        epoch <= epoch_after(epoch, event),
    ensures
        is_in_order(flusher::transition(state, event).0, epoch_after(epoch, event)),
{
    match (state.phase, event) {
        (flusher::Phase::Collecting, FlushEvent::Item(ParquetQueueItem::Checkpoint(checkpoint))) => {
            recovery::order_outlasts_epochs(state.files, epoch, checkpoint.epoch);
        },
        (flusher::Phase::Uploading { checkpoint, current, .. }, FlushEvent::Uploaded) => {
            let file = flusher::stored_file(current, epoch);
            assert(backend::file_code(file) == tables::table_code(current.table));
            recovery::storing_keeps_files_orderly(state.files, epoch, file);
        },
        (flusher::Phase::Finishing { checkpoint, .. }, FlushEvent::Clock(_)) => {
            recovery::checkpoints_keep_files_orderly(
                state.files,
                state.tables,
                epoch,
                checkpoint.watermark,
            );
        },
        _ => {},
    }
}

/// What `actions` ask to store, each key with its contents, in order.
pub open spec fn uploads(actions: Seq<flusher::Action>) -> Seq<(Seq<char>, Seq<u8>)>
    decreases actions.len(),
{
    if actions.len() == 0 {
        Seq::empty()
    } else {
        match actions.last() {
            flusher::Action::Upload { key, contents } => uploads(actions.drop_last()).push(
                (key, contents),
            ),
            _ => uploads(actions.drop_last()),
        }
    }
}

/// What is stored once all that `actions` ask to store is, over what was stored before.
pub open spec fn stored_after(
    storage: spec_fn(Seq<char>) -> Seq<u8>,
    actions: Seq<flusher::Action>,
) -> spec_fn(Seq<char>) -> Seq<u8>
    decreases actions.len(),
{
    if actions.len() == 0 {
        storage
    } else {
        let before = stored_after(storage, actions.drop_last());
        match actions.last() {
            flusher::Action::Upload { key, contents } => |path: Seq<char>|
                if path == key {
                    contents
                } else {
                    before(path)
                },
            _ => before,
        }
    }
}

/// The contents of the file that `rows` are written as.
pub open spec fn contents_of_rows(rows: Seq<columns::DataRow>) -> Seq<u8> {
    columns::parquet_file(batch::state_columns(rows))->0
}

/// What a file that is to be written is stored as, and where.
spec fn upload_of(pending: flusher::Pending) -> (Seq<char>, Seq<u8>) {
    (pending.file, columns::parquet_file(pending.columns)->0)
}

spec fn uploads_of(pending: Seq<flusher::Pending>) -> Seq<(Seq<char>, Seq<u8>)> {
    pending.map_values(|p: flusher::Pending| upload_of(p))
}

/// A write adds its row to the buffer of its table, behind those that are there, and changes no
/// other buffer.
pub proof fn writes_add_their_row(
    buffers: Map<u32, flusher::Buffer>,
    write: ParquetWrite,
    other: char,
)
    ensures
        flusher::buffered_rows(Map::empty(), other) == Seq::<columns::DataRow>::empty(),
        flusher::buffered_rows(flusher::with_row(buffers, write), write.table)
            == flusher::buffered_rows(buffers, write.table).push(
            columns::DataRow {
                key_hash: write.key_hash,
                timestamp: write.timestamp,
                key: write.key@,
                data: write.data@,
            },
        ),
        other != write.table ==> flusher::buffered_rows(flusher::with_row(buffers, write), other)
            == flusher::buffered_rows(buffers, other),
{
    if tables::table_code(other) == tables::table_code(write.table) {
        tables::codes_differ(other, write.table);
    }
}

/// The rows that were written to a table are those of the writes to it, in order.
pub proof fn rows_are_those_of_the_writes(
    writes: Seq<ParquetWrite>,
    write: ParquetWrite,
    table: char,
)
    ensures
        rows_written(Seq::empty(), table) == Seq::<columns::DataRow>::empty(),
        write.table == table ==> rows_written(writes.push(write), table) == rows_written(
            writes,
            table,
        ).push(
            columns::DataRow {
                key_hash: write.key_hash,
                timestamp: write.timestamp,
                key: write.key@,
                data: write.data@,
            },
        ),
        write.table != table ==> rows_written(writes.push(write), table) == rows_written(
            writes,
            table,
        ),
{
    reveal(Seq::filter);
    assert(rows_written(Seq::empty(), table) =~= Seq::<columns::DataRow>::empty());
    lemma_rows_written_push(writes, write, table);
}

/// A flusher takes answers to what it asked for, and nothing else. While it collects, that is a
/// checkpoint, the end of the queue, or a write that fits; while it uploads, the outcome of the
/// upload, as long as the bytes can be counted; and at the end of a checkpoint the time.
pub proof fn flushers_take_answers_alone(state: flusher::FlusherState, event: FlushEvent)
    ensures
        match event {
            FlushEvent::Item(ParquetQueueItem::Write(write)) => flusher::is_accepted(state, event)
                <==> state.phase is Collecting && batch::has_room(
                flusher::buffered_rows(state.buffers, write.table),
                write.key@,
                write.data@,
            ),
            FlushEvent::Item(ParquetQueueItem::Checkpoint(_)) => flusher::is_accepted(state, event)
                <==> state.phase is Collecting,
            FlushEvent::Closed => flusher::is_accepted(state, event) <==> state.phase is Collecting,
            FlushEvent::Uploaded => flusher::is_accepted(state, event) <==> (state.phase matches
                flusher::Phase::Uploading { current, bytes, .. } && bytes + current.size
                <= usize::MAX),
            FlushEvent::UploadFailed => flusher::is_accepted(state, event) <==> state.phase
                is Uploading,
            FlushEvent::Clock(_) => flusher::is_accepted(state, event) <==> (state.phase matches
                flusher::Phase::Finishing { checkpoint, .. } && files::is_decidable(
                state.files,
                state.tables,
                checkpoint.epoch,
                checkpoint.watermark,
            )),
        },
{
}

/// The end of the queue stops a flusher, and so does an upload that failed, which it reports as
/// such; neither changes what it has collected or stored.
pub proof fn flushers_stop_where_they_have_to(state: flusher::FlusherState)
    ensures
        state.phase is Collecting ==> flusher::transition(state, FlushEvent::Closed) == (
            flusher::FlusherState { phase: flusher::Phase::Stopped, ..state },
            flusher::Action::Stop,
        ),
        state.phase is Uploading ==> flusher::transition(state, FlushEvent::UploadFailed) == (
            flusher::FlusherState { phase: flusher::Phase::Stopped, ..state },
            flusher::Action::Fail(flusher::FlushError::Upload),
        ),
{
}

/// The buffers are stored one after the other, as long as a file can be made of each.
proof fn lemma_stored_in_turn(
    state: flusher::FlusherState,
    checkpoint: ParquetCheckpoint,
    uploads: nat,
)
    requires
        state.phase is Collecting,
        uploads <= flusher::pending_of(state.buffers, state.task, checkpoint.epoch).len(),
        is_encodable(
            flusher::pending_of(state.buffers, state.task, checkpoint.epoch).take(uploads as int),
        ),
    ensures
        ({
            let pending = flusher::pending_of(state.buffers, state.task, checkpoint.epoch);
            let (end, actions) = run(state, checkpoint_events(checkpoint, uploads));
            let sofar = flusher::FlusherState {
                buffers: Map::empty(),
                files: after_uploads(
                    state.files,
                    pending.take(uploads as int),
                    checkpoint.epoch,
                ),
                ..state
            };
            let bytes = stored_bytes(pending.take(uploads as int));
            (end, actions.last()) == flusher::next_upload(
                sofar,
                checkpoint,
                pending.skip(uploads as int),
                bytes,
            )
        }),
    decreases uploads,
{
    let pending = flusher::pending_of(state.buffers, state.task, checkpoint.epoch);
    let events = checkpoint_events(checkpoint, uploads);
    if uploads == 0 {
        assert(events.drop_last() =~= Seq::empty());
        assert(events.last() == FlushEvent::Item(ParquetQueueItem::Checkpoint(checkpoint)));
        assert(pending.skip(0) =~= pending);
        assert(run(state, events.drop_last()).0 == state);
    } else {
        let n = (uploads - 1) as nat;
        assert forall|i: int| 0 <= i < n implies columns::parquet_file(
            (#[trigger] pending.take(n as int)[i]).columns,
        ) is Some by {
            assert(pending.take(uploads as int)[i] == pending.take(n as int)[i]);
        }
        lemma_stored_in_turn(state, checkpoint, n);
        assert(events.drop_last() =~= checkpoint_events(checkpoint, n));
        assert(events.last() == FlushEvent::Uploaded);
        assert(pending.skip(n as int).drop_first() =~= pending.skip(uploads as int));
        assert(pending.skip(n as int)[0] == pending[n as int]);
        assert(pending.take(uploads as int).drop_last() =~= pending.take(n as int));
        assert(pending.take(uploads as int)[n as int] == pending[n as int]);
    }
}

/// Where no file can be made of the rows of a table, the flusher gives up when their turn comes,
/// and says so.
pub proof fn rows_without_a_file_end_the_flusher(
    state: flusher::FlusherState,
    checkpoint: ParquetCheckpoint,
    uploads: nat,
)
    requires
        state.phase is Collecting,
        uploads < flusher::pending_of(state.buffers, state.task, checkpoint.epoch).len(),
        is_encodable(
            flusher::pending_of(state.buffers, state.task, checkpoint.epoch).take(uploads as int),
        ),
        columns::parquet_file(
            flusher::pending_of(
                state.buffers,
                state.task,
                checkpoint.epoch,
            )[uploads as int].columns,
        ) is None,
    ensures
        run(state, checkpoint_events(checkpoint, uploads)).0.phase is Stopped,
        run(state, checkpoint_events(checkpoint, uploads)).1.last() == flusher::Action::Fail(
            flusher::FlushError::Encode,
        ),
{
    let pending = flusher::pending_of(state.buffers, state.task, checkpoint.epoch);
    lemma_stored_in_turn(state, checkpoint, uploads);
    assert(pending.skip(uploads as int)[0] == pending[uploads as int]);
}

proof fn lemma_uploads_add(actions: Seq<flusher::Action>, more: Seq<flusher::Action>)
    ensures
        uploads(actions + more) == uploads(actions) + uploads(more),
    decreases more.len(),
{
    if more.len() == 0 {
        assert(actions + more =~= actions);
        assert(uploads(actions) + Seq::<(Seq<char>, Seq<u8>)>::empty() =~= uploads(actions));
    } else {
        lemma_uploads_add(actions, more.drop_last());
        assert((actions + more).drop_last() =~= actions + more.drop_last());
        assert((actions + more).last() == more.last());
        if let flusher::Action::Upload { key, contents } = more.last() {
            assert(uploads(actions) + uploads(more.drop_last()).push((key, contents)) =~= (uploads(
                actions,
            ) + uploads(more.drop_last())).push((key, contents)));
        }
    }
}

/// Taking writes stores nothing.
proof fn lemma_no_uploads_of_writes(state: flusher::FlusherState, writes: Seq<ParquetWrite>)
    requires
        state.phase is Collecting,
    ensures
        uploads(run(state, write_events(writes)).1) == Seq::<(Seq<char>, Seq<u8>)>::empty(),
    decreases writes.len(),
{
    if writes.len() == 0 {
        assert(write_events(writes) =~= Seq::empty());
    } else {
        let before = writes.drop_last();
        lemma_no_uploads_of_writes(state, before);
        writes_are_buffered(state, before);
        assert(write_events(writes).drop_last() =~= write_events(before));
        let actions = run(state, write_events(before)).1;
        assert(run(state, write_events(writes)).1.drop_last() =~= actions);
    }
}

/// What a checkpoint has asked to store once `n` files are stored.
proof fn lemma_uploads_of_checkpoint(
    state: flusher::FlusherState,
    checkpoint: ParquetCheckpoint,
    n: nat,
)
    requires
        state.phase is Collecting,
        is_encodable(flusher::pending_of(state.buffers, state.task, checkpoint.epoch)),
        n <= flusher::pending_of(state.buffers, state.task, checkpoint.epoch).len(),
    ensures
        ({
            let pending = flusher::pending_of(state.buffers, state.task, checkpoint.epoch);
            uploads(run(state, checkpoint_events(checkpoint, n)).1) == uploads_of(
                pending.take(
                    if n < pending.len() {
                        (n + 1) as int
                    } else {
                        n as int
                    },
                ),
            )
        }),
    decreases n,
{
    let pending = flusher::pending_of(state.buffers, state.task, checkpoint.epoch);
    let events = checkpoint_events(checkpoint, n);
    let (end, actions) = run(state, events);
    checkpoints_store_every_buffer(state, checkpoint, n);
    if n == 0 {
        assert(events.drop_last() =~= Seq::empty());
        assert(run(state, events.drop_last()) == (state, Seq::<flusher::Action>::empty()));
        assert(actions.drop_last() =~= Seq::<flusher::Action>::empty());
        assert(uploads(actions.drop_last()) =~= Seq::<(Seq<char>, Seq<u8>)>::empty());
        if n < pending.len() {
            assert(pending.skip(0)[0] == pending[0]);
            assert(columns::parquet_file(pending[0].columns) is Some);
            assert(uploads(actions) =~= uploads_of(pending.take(1)));
        } else {
            assert(uploads(actions) =~= uploads_of(pending.take(0)));
        }
    } else {
        let m = (n - 1) as nat;
        lemma_uploads_of_checkpoint(state, checkpoint, m);
        assert(events.drop_last() =~= checkpoint_events(checkpoint, m));
        assert(actions.drop_last() =~= run(state, checkpoint_events(checkpoint, m)).1);
        if n < pending.len() {
            assert(pending.skip(n as int)[0] == pending[n as int]);
            assert(columns::parquet_file(pending[n as int].columns) is Some);
            assert(uploads(actions) =~= uploads_of(pending.take((n + 1) as int)));
        } else {
            assert(uploads(actions) =~= uploads_of(pending.take(n as int)));
        }
    }
}

/// What a whole checkpoint asks to store are the files of its buffers.
proof fn lemma_uploads_of_whole_checkpoint(
    state: flusher::FlusherState,
    writes: Seq<ParquetWrite>,
    checkpoint: ParquetCheckpoint,
    now: u64,
)
    requires
        state.phase is Collecting,
        is_encodable(
            flusher::pending_of(
                after_writes(state.buffers, writes),
                state.task,
                checkpoint.epoch,
            ),
        ),
    ensures
        uploads(checkpoint_actions(state, writes, checkpoint, now)) == uploads_of(
            flusher::pending_of(
                after_writes(state.buffers, writes),
                state.task,
                checkpoint.epoch,
            ),
        ),
{
    let buffers = after_writes(state.buffers, writes);
    let pending = flusher::pending_of(buffers, state.task, checkpoint.epoch);
    let first = write_events(writes);
    let second = checkpoint_events(checkpoint, pending.len());
    let third = seq![FlushEvent::Clock(now)];
    let collected = flusher::FlusherState { buffers, ..state };
    writes_are_buffered(state, writes);
    lemma_no_uploads_of_writes(state, writes);
    checkpoints_store_every_buffer(collected, checkpoint, pending.len());
    lemma_uploads_of_checkpoint(collected, checkpoint, pending.len());
    assert(pending.take(pending.len() as int) =~= pending);
    lemma_run_add(state, first, second);
    let finishing = run(state, first + second).0;
    lemma_run_add(state, first + second, third);
    assert(third.drop_last() =~= Seq::<FlushEvent>::empty());
    assert(run(finishing, third.drop_last()) == (finishing, Seq::<flusher::Action>::empty()));
    let last = run(finishing, third).1;
    assert(pending.skip(pending.len() as int).len() == 0);
    assert(finishing.phase is Finishing);
    assert(last.drop_last() =~= Seq::<flusher::Action>::empty());
    assert(last.last() is Report);
    assert(uploads(last.drop_last()) =~= Seq::<(Seq<char>, Seq<u8>)>::empty());
    assert(uploads(last) =~= Seq::<(Seq<char>, Seq<u8>)>::empty());
    lemma_uploads_add(run(state, first).1, run(collected, second).1);
    lemma_uploads_add(run(state, first + second).1, last);
    assert(uploads(run(state, first + second + third).1) =~= uploads_of(pending));
}

/// All that a flusher asks for while it takes `writes` and then a checkpoint, all of whose files
/// are stored and which is finished at `now`.
pub open spec fn checkpoint_actions(
    state: flusher::FlusherState,
    writes: Seq<ParquetWrite>,
    checkpoint: ParquetCheckpoint,
    now: u64,
) -> Seq<flusher::Action> {
    let files = flusher::pending_of(
        after_writes(state.buffers, writes),
        state.task,
        checkpoint.epoch,
    ).len();
    run(state, whole_checkpoint(writes, checkpoint, files, now)).1
}

/// The files that are to be written are for tables in ascending order.
proof fn lemma_pending_ascends(
    buffers: Map<u32, flusher::Buffer>,
    task: types::Task,
    epoch: u32,
    bound: nat,
)
    requires
        is_indexed(buffers),
        bound <= 0x1_0000_0000,
    ensures
        ({
            let pending = ordered::lists_below(
                |code: u32| pending_under(buffers, task, epoch, code),
                bound,
            );
            &&& forall|i: int|
                0 <= i < pending.len() ==> tables::table_code((#[trigger] pending[i]).table)
                    < bound
            &&& forall|i: int, j: int|
                0 <= i < j < pending.len() ==> tables::table_code((#[trigger] pending[i]).table)
                    < tables::table_code((#[trigger] pending[j]).table)
        }),
    decreases bound,
{
    let lists = |code: u32| pending_under(buffers, task, epoch, code);
    if bound > 0 {
        let code = (bound - 1) as u32;
        let before = ordered::lists_below(lists, code as nat);
        let pending = ordered::lists_below(lists, bound);
        lemma_pending_ascends(buffers, task, epoch, code as nat);
        assert forall|i: int| 0 <= i < pending.len() implies tables::table_code(
            (#[trigger] pending[i]).table,
        ) < bound && (i >= before.len() ==> i == before.len() && tables::table_code(
            pending[i].table,
        ) == code) by {
            if i < before.len() {
                assert(pending[i] == before[i]);
            } else {
                assert(pending[i] == lists(code)[i - before.len()]);
            }
        }
        assert forall|i: int, j: int| 0 <= i < j < pending.len() implies tables::table_code(
            (#[trigger] pending[i]).table,
        ) < tables::table_code((#[trigger] pending[j]).table) by {
            assert(pending[i] == before[i]);
            if j < before.len() {
                assert(pending[j] == before[j]);
            }
        }
    }
}

/// The file that is to be written for each table that has rows.
proof fn lemma_pending_of_table(
    buffers: Map<u32, flusher::Buffer>,
    task: types::Task,
    epoch: u32,
    table: char,
)
    requires
        is_indexed(buffers),
        flusher::buffered_rows(buffers, table).len() > 0,
    ensures
        flusher::pending_of(buffers, task, epoch).contains(
            flusher::Pending {
                table,
                file: paths::spec_table_checkpoint_path(task, table, epoch),
                stats: batch::stats_of(flusher::buffered_rows(buffers, table)),
                columns: batch::state_columns(flusher::buffered_rows(buffers, table)),
            },
        ),
{
    let code = tables::table_code(table);
    let lists = |code: u32| pending_under(buffers, task, epoch, code);
    lemma_pending_by_code(buffers, task, epoch);
    assert(buffers.contains_key(code));
    tables::codes_differ(buffers[code].table, table);
    let wanted = flusher::pending_from(buffers[code], task, epoch)[0];
    assert(lists(code)[0] == wanted);
    assert(lists(code).contains(wanted));
    ordered::lemma_listed(lists, wanted, 0x1_0000_0000);
}

/// Every file that is to be written is for a table that has rows.
proof fn lemma_pending_has_rows(
    buffers: Map<u32, flusher::Buffer>,
    task: types::Task,
    epoch: u32,
    pending: flusher::Pending,
)
    requires
        is_indexed(buffers),
        flusher::pending_of(buffers, task, epoch).contains(pending),
    ensures
        flusher::buffered_rows(buffers, pending.table).len() > 0,
        pending.file == paths::spec_table_checkpoint_path(task, pending.table, epoch),
        pending.stats == batch::stats_of(flusher::buffered_rows(buffers, pending.table)),
        pending.columns == batch::state_columns(flusher::buffered_rows(buffers, pending.table)),
{
    let lists = |code: u32| pending_under(buffers, task, epoch, code);
    lemma_pending_by_code(buffers, task, epoch);
    ordered::lemma_listed(lists, pending, 0x1_0000_0000);
    let code = choose|code: u32| #[trigger] lists(code).contains(pending);
    assert(buffers.contains_key(code));
    let list = lists(code);
    assert(list.len() == 1 && list[0] == pending);
}

/// Whether a file can be made of the rows of each table that a checkpoint after `writes` has to
/// store.
pub open spec fn can_be_stored(
    state: flusher::FlusherState,
    writes: Seq<ParquetWrite>,
) -> bool {
    forall|table: char|
        (#[trigger] all_written(state, writes, table)).len() > 0 ==> columns::parquet_file(
            batch::state_columns(all_written(state, writes, table)),
        ) is Some
}

proof fn lemma_encodable(
    state: flusher::FlusherState,
    writes: Seq<ParquetWrite>,
    checkpoint: ParquetCheckpoint,
)
    requires
        state.phase is Collecting,
        is_indexed(state.buffers),
        can_be_stored(state, writes),
    ensures
        is_indexed(after_writes(state.buffers, writes)),
        forall|table: char| #[trigger]
            flusher::buffered_rows(after_writes(state.buffers, writes), table) == all_written(
                state,
                writes,
                table,
            ),
        is_encodable(
            flusher::pending_of(
                after_writes(state.buffers, writes),
                state.task,
                checkpoint.epoch,
            ),
        ),
{
    let buffers = after_writes(state.buffers, writes);
    let pending = flusher::pending_of(buffers, state.task, checkpoint.epoch);
    writes_are_buffered(state, writes);
    writes_keep_the_index(state.buffers, writes);
    assert forall|i: int| 0 <= i < pending.len() implies columns::parquet_file(
        (#[trigger] pending[i]).columns,
    ) is Some by {
        assert(pending.contains(pending[i]));
        lemma_pending_has_rows(buffers, state.task, checkpoint.epoch, pending[i]);
        assert(flusher::buffered_rows(buffers, pending[i].table) == all_written(
            state,
            writes,
            pending[i].table,
        ));
    }
}

/// At a checkpoint the rows of each table that was written to are uploaded as one file, under
/// the path of the subtask, the table and the epoch, and with the contents that the rows are
/// written as.
pub proof fn written_rows_are_uploaded_under_their_path(
    state: flusher::FlusherState,
    writes: Seq<ParquetWrite>,
    checkpoint: ParquetCheckpoint,
    now: u64,
    table: char,
)
    requires
        state.phase is Collecting,
        is_indexed(state.buffers),
        can_be_stored(state, writes),
        all_written(state, writes, table).len() > 0,
    ensures
        uploads(checkpoint_actions(state, writes, checkpoint, now)).contains(
            (
                paths::spec_table_checkpoint_path(state.task, table, checkpoint.epoch),
                contents_of_rows(all_written(state, writes, table)),
            ),
        ),
{
    let buffers = after_writes(state.buffers, writes);
    let pending = flusher::pending_of(buffers, state.task, checkpoint.epoch);
    lemma_encodable(state, writes, checkpoint);
    lemma_uploads_of_whole_checkpoint(state, writes, checkpoint, now);
    assert(flusher::buffered_rows(buffers, table) == all_written(state, writes, table));
    lemma_pending_of_table(buffers, state.task, checkpoint.epoch, table);
    let wanted = flusher::Pending {
        table,
        file: paths::spec_table_checkpoint_path(state.task, table, checkpoint.epoch),
        stats: batch::stats_of(flusher::buffered_rows(buffers, table)),
        columns: batch::state_columns(flusher::buffered_rows(buffers, table)),
    };
    let i = choose|i: int| 0 <= i < pending.len() && pending[i] == wanted;
    assert(uploads_of(pending)[i] == upload_of(wanted));
}

/// Nothing else is uploaded at a checkpoint, and nothing twice: each upload is of the rows of
/// one table that was written to, and no two are stored in the same place.
pub proof fn nothing_else_is_uploaded(
    state: flusher::FlusherState,
    writes: Seq<ParquetWrite>,
    checkpoint: ParquetCheckpoint,
    now: u64,
    i: int,
    j: int,
)
    requires
        state.phase is Collecting,
        is_indexed(state.buffers),
        can_be_stored(state, writes),
        0 <= i < uploads(checkpoint_actions(state, writes, checkpoint, now)).len(),
        0 <= j < uploads(checkpoint_actions(state, writes, checkpoint, now)).len(),
    ensures
        exists|table: char|
            (#[trigger] all_written(state, writes, table)).len() > 0 && uploads(
                checkpoint_actions(state, writes, checkpoint, now),
            )[i] == (
                paths::spec_table_checkpoint_path(state.task, table, checkpoint.epoch),
                contents_of_rows(all_written(state, writes, table)),
            ),
        i != j ==> uploads(checkpoint_actions(state, writes, checkpoint, now))[i].0 != uploads(
            checkpoint_actions(state, writes, checkpoint, now),
        )[j].0,
{
    let buffers = after_writes(state.buffers, writes);
    let pending = flusher::pending_of(buffers, state.task, checkpoint.epoch);
    lemma_encodable(state, writes, checkpoint);
    lemma_uploads_of_whole_checkpoint(state, writes, checkpoint, now);
    let table = pending[i].table;
    assert(pending.contains(pending[i]));
    assert(pending.contains(pending[j]));
    lemma_pending_has_rows(buffers, state.task, checkpoint.epoch, pending[i]);
    lemma_pending_has_rows(buffers, state.task, checkpoint.epoch, pending[j]);
    assert(flusher::buffered_rows(buffers, table) == all_written(state, writes, table));
    assert(uploads_of(pending)[i] == upload_of(pending[i]));
    assert(uploads_of(pending)[j] == upload_of(pending[j]));
    if i != j && pending[i].file == pending[j].file {
        paths::data_files_differ(
            state.task,
            pending[i].table,
            checkpoint.epoch,
            state.task,
            pending[j].table,
            checkpoint.epoch,
        );
        lemma_pending_by_code(buffers, state.task, checkpoint.epoch);
        lemma_pending_ascends(buffers, state.task, checkpoint.epoch, 0x1_0000_0000);
        if i < j {
            assert(tables::table_code(pending[i].table) < tables::table_code(pending[j].table));
        } else {
            assert(tables::table_code(pending[j].table) < tables::table_code(pending[i].table));
        }
    }
}

proof fn lemma_stored_after(
    storage: spec_fn(Seq<char>) -> Seq<u8>,
    actions: Seq<flusher::Action>,
    path: Seq<char>,
)
    ensures
        (forall|i: int|
            0 <= i < uploads(actions).len() ==> (#[trigger] uploads(actions)[i]).0 != path)
            ==> stored_after(storage, actions)(path) == storage(path),
        forall|k: int|
            0 <= k < uploads(actions).len() && (#[trigger] uploads(actions)[k]).0 == path && (
            forall|i: int|
                k < i < uploads(actions).len() ==> (#[trigger] uploads(actions)[i]).0 != path)
                ==> stored_after(storage, actions)(path) == uploads(actions)[k].1,
    decreases actions.len(),
{
    if actions.len() > 0 {
        let before = actions.drop_last();
        let list = uploads(actions);
        let earlier = uploads(before);
        lemma_stored_after(storage, before, path);
        if let flusher::Action::Upload { key, contents } = actions.last() {
            let n = earlier.len() as int;
            assert(list[n] == (key, contents));
            assert(forall|i: int| 0 <= i < n ==> #[trigger] list[i] == earlier[i]);
            if forall|i: int| 0 <= i < list.len() ==> (#[trigger] list[i]).0 != path {
                assert(list[n].0 != path);
                assert forall|i: int| 0 <= i < n implies (#[trigger] earlier[i]).0 != path by {
                    assert(list[i] == earlier[i]);
                }
            }
            assert forall|k: int|
                0 <= k < list.len() && (#[trigger] list[k]).0 == path && (forall|i: int|
                    k < i < list.len() ==> (#[trigger] list[i]).0 != path) implies stored_after(
                storage,
                actions,
            )(path) == list[k].1 by {
                if k < n {
                    assert(list[n].0 != path);
                    assert(earlier[k] == list[k]);
                    assert forall|i: int| k < i < n implies (#[trigger] earlier[i]).0 != path by {
                        assert(list[i] == earlier[i]);
                    }
                }
            }
        }
    }
}

/// After a checkpoint the storage has, for each table that was written to, its rows under the
/// path of the subtask, the table and the epoch; what lies anywhere else is as it was.
pub proof fn checkpoints_store_rows_under_their_path(
    state: flusher::FlusherState,
    writes: Seq<ParquetWrite>,
    checkpoint: ParquetCheckpoint,
    now: u64,
    storage: spec_fn(Seq<char>) -> Seq<u8>,
    table: char,
    path: Seq<char>,
)
    requires
        state.phase is Collecting,
        is_indexed(state.buffers),
        can_be_stored(state, writes),
    ensures
        all_written(state, writes, table).len() > 0 ==> stored_after(
            storage,
            checkpoint_actions(state, writes, checkpoint, now),
        )(paths::spec_table_checkpoint_path(state.task, table, checkpoint.epoch))
            == contents_of_rows(all_written(state, writes, table)),
        (forall|t: char| path != #[trigger] paths::spec_table_checkpoint_path(
            state.task,
            t,
            checkpoint.epoch,
        )) ==> stored_after(storage, checkpoint_actions(state, writes, checkpoint, now))(path)
            == storage(path),
{
    let actions = checkpoint_actions(state, writes, checkpoint, now);
    let list = uploads(actions);
    if all_written(state, writes, table).len() > 0 {
        let place = paths::spec_table_checkpoint_path(state.task, table, checkpoint.epoch);
        let wanted = (place, contents_of_rows(all_written(state, writes, table)));
        written_rows_are_uploaded_under_their_path(state, writes, checkpoint, now, table);
        let k = choose|k: int| 0 <= k < list.len() && list[k] == wanted;
        assert forall|i: int| k < i < list.len() implies (#[trigger] list[i]).0 != place by {
            nothing_else_is_uploaded(state, writes, checkpoint, now, k, i);
        }
        lemma_stored_after(storage, actions, place);
        assert(uploads(actions)[k].0 == place);
    }
    if forall|t: char| path != #[trigger] paths::spec_table_checkpoint_path(
        state.task,
        t,
        checkpoint.epoch,
    ) {
        assert forall|i: int| 0 <= i < list.len() implies (#[trigger] list[i]).0 != path by {
            nothing_else_is_uploaded(state, writes, checkpoint, now, i, i);
            let t = choose|t: char|
                (#[trigger] all_written(state, writes, t)).len() > 0 && list[i] == (
                    paths::spec_table_checkpoint_path(state.task, t, checkpoint.epoch),
                    contents_of_rows(all_written(state, writes, t)),
                );
            assert(path != paths::spec_table_checkpoint_path(state.task, t, checkpoint.epoch));
        }
        lemma_stored_after(storage, actions, path);
    }
}

/// The state of a flusher after `writes` and then a checkpoint, all of whose files are stored and
/// which is finished at `now`.
pub open spec fn checkpoint_end(
    state: flusher::FlusherState,
    writes: Seq<ParquetWrite>,
    checkpoint: ParquetCheckpoint,
    now: u64,
) -> flusher::FlusherState {
    let files = flusher::pending_of(
        after_writes(state.buffers, writes),
        state.task,
        checkpoint.epoch,
    ).len();
    run(state, whole_checkpoint(writes, checkpoint, files, now)).0
}

/// A checkpoint ends with a report that names the epoch, the operator and the subtask, gives the
/// times at which the checkpoint was asked for and finished, the watermark, and all tables; it
/// lists state files alone, and says whether there are any. The flusher then has no rows left
/// and stops where it was asked to, and otherwise goes on collecting.
pub proof fn reports_say_what_was_done(
    state: flusher::FlusherState,
    writes: Seq<ParquetWrite>,
    checkpoint: ParquetCheckpoint,
    now: u64,
    table: types::Table,
    i: int,
)
    requires
        state.phase is Collecting,
        is_indexed(state.buffers),
        can_be_stored(state, writes),
    ensures
        ({
            let actions = checkpoint_actions(state, writes, checkpoint, now);
            let end = checkpoint_end(state, writes, checkpoint, now);
            &&& actions.last() matches flusher::Action::Report { report, then_stop } && {
                &&& then_stop == checkpoint.then_stop
                &&& report.checkpoint_epoch == checkpoint.epoch
                &&& report.operator_id == state.task.operator_id
                &&& report.subtask_index == state.task.task_index as u32
                &&& report.start_time == checkpoint.time
                &&& report.finish_time == now
                &&& report.watermark == checkpoint.watermark
                &&& report.has_state <==> report.backend_data.len() > 0
                &&& 0 <= i < report.backend_data.len() ==> report.backend_data[i] is Some
                &&& report.tables.contains(table) <==> exists|code: u32| #[trigger]
                    state.tables.contains_key(code) && state.tables[code] == table
            }
            &&& end.buffers.dom() == Set::<u32>::empty()
            &&& end.task == state.task
            &&& end.tables == state.tables
            &&& checkpoint.then_stop ==> end.phase is Stopped
            &&& !checkpoint.then_stop ==> end.phase is Collecting
        }),
{
    let buffers = after_writes(state.buffers, writes);
    let pending = flusher::pending_of(buffers, state.task, checkpoint.epoch);
    let first = write_events(writes);
    let second = checkpoint_events(checkpoint, pending.len());
    let third = seq![FlushEvent::Clock(now)];
    let collected = flusher::FlusherState { buffers, ..state };
    lemma_encodable(state, writes, checkpoint);
    writes_are_buffered(state, writes);
    checkpoints_store_every_buffer(collected, checkpoint, pending.len());
    lemma_run_add(state, first, second);
    let finishing = run(state, first + second).0;
    assert(pending.skip(pending.len() as int).len() == 0);
    assert(finishing.phase is Finishing);
    assert(third.drop_last() =~= Seq::<FlushEvent>::empty());
    assert(run(finishing, third.drop_last()) == (finishing, Seq::<flusher::Action>::empty()));
    lemma_run_add(state, first + second, third);
    let listed = ordered::ordered_values(state.tables);
    let keys = ordered::ordered_keys(state.tables.dom());
    ordered::lemma_keys_below(state.tables.dom(), 0x1_0000_0000);
    if listed.contains(table) {
        let j = choose|j: int| 0 <= j < listed.len() && listed[j] == table;
        assert(keys.contains(keys[j]));
        assert(state.tables.contains_key(keys[j]));
    }
    if exists|code: u32| #[trigger]
        state.tables.contains_key(code) && state.tables[code] == table {
        let code = choose|code: u32| #[trigger]
            state.tables.contains_key(code) && state.tables[code] == table;
        assert(keys.contains(code));
        let j = choose|j: int| 0 <= j < keys.len() && keys[j] == code;
        assert(listed[j] == table);
    }
}

/// The number of bytes that a checkpoint reports is that of all contents that it uploaded.
pub proof fn reports_count_what_was_uploaded(
    state: flusher::FlusherState,
    writes: Seq<ParquetWrite>,
    checkpoint: ParquetCheckpoint,
    now: u64,
)
    requires
        state.phase is Collecting,
        is_indexed(state.buffers),
        can_be_stored(state, writes),
    ensures
        ({
            let actions = checkpoint_actions(state, writes, checkpoint, now);
            actions.last() matches flusher::Action::Report { report, .. } && report.bytes
                == columns::total_bytes(
                uploads(actions).map_values(|u: (Seq<char>, Seq<u8>)| u.1),
            ) as u64
        }),
{
    let pending = flusher::pending_of(
        after_writes(state.buffers, writes),
        state.task,
        checkpoint.epoch,
    );
    lemma_encodable(state, writes, checkpoint);
    lemma_uploads_of_whole_checkpoint(state, writes, checkpoint, now);
    checkpoints_report_what_is_left(state, writes, checkpoint, now);
    lemma_stored_bytes(pending);
}

proof fn lemma_stored_bytes(pending: Seq<flusher::Pending>)
    ensures
        stored_bytes(pending) == columns::total_bytes(
            uploads_of(pending).map_values(|u: (Seq<char>, Seq<u8>)| u.1),
        ),
    decreases pending.len(),
{
    let contents = uploads_of(pending).map_values(|u: (Seq<char>, Seq<u8>)| u.1);
    if pending.len() > 0 {
        let before = pending.drop_last();
        lemma_stored_bytes(before);
        assert(contents.drop_last() =~= uploads_of(before).map_values(
            |u: (Seq<char>, Seq<u8>)| u.1,
        ));
    }
}

/// Whatever files there are after uploads were there before or were uploaded.
proof fn lemma_old_or_new(
    files: Map<u32, Map<u32, Seq<types::StoredFile>>>,
    pending: Seq<flusher::Pending>,
    epoch: u32,
    table: u32,
    file: types::StoredFile,
)
    requires
        recovery::is_orderly(files, epoch),
        files::files_of(after_uploads(files, pending, epoch), table).contains(file),
    ensures
        files::files_of(files, table).contains(file) || exists|i: int|
            0 <= i < pending.len() && file == stored_as(#[trigger] pending[i], epoch),
    decreases pending.len(),
{
    if pending.len() > 0 {
        let before = pending.drop_last();
        let earlier = after_uploads(files, before, epoch);
        let last = stored_as(pending.last(), epoch);
        let code = tables::table_code(pending.last().table);
        lemma_after_uploads_orderly(files, before, epoch);
        files::new_files_come_last(earlier, code, epoch, last);
        let all = files::files_of(after_uploads(files, pending, epoch), table);
        let old = files::files_of(earlier, table);
        let i = choose|i: int| 0 <= i < all.len() && all[i] == file;
        if i < old.len() {
            assert(old[i] == file);
            lemma_old_or_new(files, before, epoch, table, file);
            if !files::files_of(files, table).contains(file) {
                let j = choose|j: int|
                    0 <= j < before.len() && file == stored_as(#[trigger] before[j], epoch);
                assert(pending[j] == before[j]);
            }
        } else {
            assert(file == stored_as(pending[pending.len() - 1], epoch));
        }
    }
}

proof fn lemma_after_uploads_orderly(
    files: Map<u32, Map<u32, Seq<types::StoredFile>>>,
    pending: Seq<flusher::Pending>,
    epoch: u32,
)
    requires
        recovery::is_orderly(files, epoch),
    ensures
        recovery::is_orderly(after_uploads(files, pending, epoch), epoch),
    decreases pending.len(),
{
    if pending.len() > 0 {
        lemma_after_uploads_orderly(files, pending.drop_last(), epoch);
        let file = stored_as(pending.last(), epoch);
        assert(backend::file_code(file) == tables::table_code(pending.last().table));
        recovery::storing_keeps_files_orderly(
            after_uploads(files, pending.drop_last(), epoch),
            epoch,
            file,
        );
    }
}

/// Whether `file` says of `rows` what the rows of a file are known by: each routing key lies
/// between the two bounds and no timestamp is later than the one that is kept, and the bounds are
/// reached.
pub open spec fn bounds(file: types::StoredFile, rows: Seq<columns::DataRow>) -> bool {
    &&& forall|i: int|
        0 <= i < rows.len() ==> file.min_routing_key <= (#[trigger] rows[i]).key_hash
            <= file.max_routing_key && rows[i].timestamp <= file.max_timestamp_micros
    &&& exists|i: int|
        0 <= i < rows.len() && (#[trigger] rows[i]).key_hash == file.min_routing_key
    &&& exists|i: int|
        0 <= i < rows.len() && (#[trigger] rows[i]).key_hash == file.max_routing_key
    &&& exists|i: int|
        0 <= i < rows.len() && (#[trigger] rows[i]).timestamp == file.max_timestamp_micros
}

proof fn lemma_bounds(file: types::StoredFile, rows: Seq<columns::DataRow>)
    requires
        rows.len() > 0,
        recovery::describes(file, rows),
    ensures
        bounds(file, rows),
{
    batch::statistics_are_tight(rows);
    assert forall|i: int| 0 <= i < rows.len() implies file.min_routing_key <= (
    #[trigger] rows[i]).key_hash <= file.max_routing_key && rows[i].timestamp
        <= file.max_timestamp_micros by {
        batch::statistics_bound_rows(rows, i);
    }
}

/// Every file that a checkpoint lists as new lies where its rows were uploaded: it names one
/// table that was written to, its bounds are those of the rows, and under its path the storage
/// has the contents that these rows are written as.
pub proof fn new_files_lie_where_they_are_listed(
    state: flusher::FlusherState,
    writes: Seq<ParquetWrite>,
    checkpoint: ParquetCheckpoint,
    now: u64,
    storage: spec_fn(Seq<char>) -> Seq<u8>,
    file: types::StoredFile,
)
    requires
        state.phase is Collecting,
        is_indexed(state.buffers),
        can_be_stored(state, writes),
        recovery::is_orderly(state.files, checkpoint.epoch),
        forall|t: u32, f: types::StoredFile| #[trigger]
            files::files_of(state.files, t).contains(f) ==> f.epoch < checkpoint.epoch,
        reported(
            checkpoint_actions(state, writes, checkpoint, now).last()->report,
        ).contains(file),
        file.epoch >= checkpoint.epoch,
    ensures
        exists|table: char|
            {
                let rows = #[trigger] all_written(state, writes, table);
                &&& rows.len() > 0
                &&& file.epoch == checkpoint.epoch
                &&& file.table == seq![table]
                &&& bounds(file, rows)
                &&& uploads(checkpoint_actions(state, writes, checkpoint, now)).contains(
                    (file.file, contents_of_rows(rows)),
                )
                &&& stored_after(storage, checkpoint_actions(state, writes, checkpoint, now))(
                    file.file,
                ) == contents_of_rows(rows)
            },
{
    let epoch = checkpoint.epoch;
    let buffers = after_writes(state.buffers, writes);
    let pending = flusher::pending_of(buffers, state.task, epoch);
    let stored = after_uploads(state.files, pending, epoch);
    lemma_encodable(state, writes, checkpoint);
    checkpoints_report_what_is_left(state, writes, checkpoint, now);
    files::nothing_is_listed_that_is_not_left(
        stored,
        state.tables,
        epoch,
        checkpoint.watermark,
        file,
    );
    let t = choose|t: u32| #[trigger]
        files::files_of(
            files::retained(stored, state.tables, epoch, checkpoint.watermark),
            t,
        ).contains(file) && files::files_of(stored, t).contains(file);
    lemma_old_or_new(state.files, pending, epoch, t, file);
    assert(!files::files_of(state.files, t).contains(file));
    let i = choose|i: int|
        0 <= i < pending.len() && file == stored_as(#[trigger] pending[i], epoch);
    let table = pending[i].table;
    assert(pending.contains(pending[i]));
    lemma_pending_has_rows(buffers, state.task, epoch, pending[i]);
    assert(flusher::buffered_rows(buffers, table) == all_written(state, writes, table));
    let rows = all_written(state, writes, table);
    lemma_bounds(file, rows);
    written_rows_are_uploaded_under_their_path(state, writes, checkpoint, now, table);
    checkpoints_store_rows_under_their_path(
        state,
        writes,
        checkpoint,
        now,
        storage,
        table,
        file.file,
    );
}

/// Each table that was written to has its new file listed, unless the file is past its time
/// already: where the table drops what lies before the watermark, some row and the retention
/// together reach it.
pub proof fn written_tables_are_listed(
    state: flusher::FlusherState,
    writes: Seq<ParquetWrite>,
    checkpoint: ParquetCheckpoint,
    now: u64,
    table: char,
    row: int,
)
    requires
        state.phase is Collecting,
        is_indexed(state.buffers),
        can_be_stored(state, writes),
        recovery::is_orderly(state.files, checkpoint.epoch),
        0 <= row < all_written(state, writes, table).len(),
        state.tables[table as u32].delete_behavior != TableDeleteBehavior::NoReadsBeforeWatermark
            || (checkpoint.watermark matches Some(time) ==> time <= all_written(
            state,
            writes,
            table,
        )[row].timestamp + state.tables[table as u32].retention_micros),
    ensures
        exists|file: types::StoredFile|
            {
                &&& #[trigger] reported(
                    checkpoint_actions(state, writes, checkpoint, now).last()->report,
                ).contains(file)
                &&& file.epoch == checkpoint.epoch
                &&& file.table == seq![table]
                &&& file.file == paths::spec_table_checkpoint_path(
                    state.task,
                    table,
                    checkpoint.epoch,
                )
                &&& bounds(file, all_written(state, writes, table))
            },
{
    let epoch = checkpoint.epoch;
    let code = tables::table_code(table);
    let buffers = after_writes(state.buffers, writes);
    let pending = flusher::pending_of(buffers, state.task, epoch);
    let stored = after_uploads(state.files, pending, epoch);
    let rows = all_written(state, writes, table);
    let file = new_file(flusher::Buffer { table, rows }, state.task, epoch);
    lemma_encodable(state, writes, checkpoint);
    assert(flusher::buffered_rows(buffers, table) == rows);
    checkpoints_report_what_is_left(state, writes, checkpoint, now);
    each_table_gets_one_file(state.files, buffers, state.task, epoch, table);
    let filed = files::filed_under(stored, code, epoch);
    assert(filed[filed.len() - 1] == file);
    assert(filed.contains(file));
    batch::statistics_bound_rows(rows, row);
    files::nothing_is_dropped_before_its_time(
        stored,
        state.tables,
        epoch,
        checkpoint.watermark,
        code,
        epoch,
        file,
    );
    lemma_bounds(file, rows);
}

/// Whether the files of `list` lie where data files of the job do.
pub open spec fn is_placed(list: Seq<types::StoredFile>, job_id: Seq<char>) -> bool {
    forall|f: types::StoredFile| #[trigger]
        list.contains(f) ==> exists|task: types::Task, table: char|
            task.job_id == job_id && f.file == #[trigger] paths::spec_table_checkpoint_path(
                task,
                table,
                f.epoch,
            )
}

/// Whether the contents of the file that the rows of each table are written as give back these
/// rows.
pub open spec fn reads_faithfully(state: flusher::FlusherState, writes: Seq<ParquetWrite>) -> bool {
    forall|table: char|
        (#[trigger] all_written(state, writes, table)).len() > 0 ==> columns::file_holds(
            contents_of_rows(all_written(state, writes, table)),
            batch::state_columns(all_written(state, writes, table)),
        )
}

/// What is written to a table is read back from where the checkpoint put it. The flusher takes
/// writes and then a checkpoint, and all that it asks to store is stored over what was stored
/// before. Whoever starts from what it reports reads from the table, in any range of routing
/// keys, all rows of the files that are not past their time, in the order in which they were
/// written; the checkpoint overwrites none of them, and its own file holds what was written.
pub proof fn what_is_uploaded_is_read_back(
    state: flusher::FlusherState,
    writes: Seq<ParquetWrite>,
    checkpoint: ParquetCheckpoint,
    now: u64,
    table: char,
    range: KeyRange,
    rows: spec_fn(types::StoredFile) -> Seq<columns::DataRow>,
    storage: spec_fn(Seq<char>) -> Seq<u8>,
)
    requires
        state.phase is Collecting,
        is_indexed(state.buffers),
        recovery::is_orderly(state.files, checkpoint.epoch),
        files::filed_under(state.files, tables::table_code(table), checkpoint.epoch).len() == 0,
        can_be_stored(state, writes),
        reads_faithfully(state, writes),
        forall|f: types::StoredFile| #[trigger]
            earlier_files(state, table).contains(f) ==> f.epoch < checkpoint.epoch,
        is_placed(earlier_files(state, table), state.task.job_id),
        recovery::is_stored(earlier_files(state, table), rows, storage),
    ensures
        ({
            let actions = checkpoint_actions(state, writes, checkpoint, now);
            let restored = backend::restored(
                reported(actions.last()->report),
                state.tables,
                range,
            );
            let contents = recovery::contents_in(
                files::files_of(restored, table as u32),
                stored_after(storage, actions),
            );
            &&& triples::all_readable(contents)
            &&& triples::decode_files(contents, range) == Ok::<
                Seq<triples::Triple>,
                triples::DecodeError,
            >(
                triples::selected(
                    recovery::rows_in(
                        surviving(
                            state,
                            checkpoint,
                            table,
                            candidates(state, writes, checkpoint, table),
                        ),
                        rows_after(rows, checkpoint.epoch, all_written(state, writes, table)),
                    ),
                    range,
                ),
            )
        }),
{
    let actions = checkpoint_actions(state, writes, checkpoint, now);
    let after = stored_after(storage, actions);
    let earlier = earlier_files(state, table);
    lemma_encodable(state, writes, checkpoint);
    assert forall|i: int| 0 <= i < earlier.len() implies {
        &&& recovery::describes(#[trigger] earlier[i], rows(earlier[i]))
        &&& columns::file_holds(after(earlier[i].file), batch::state_columns(rows(earlier[i])))
    } by {
        let f = earlier[i];
        assert(earlier.contains(f));
        assert(recovery::describes(f, rows(f)));
        let (task, t) = choose|task: types::Task, t: char|
            task.job_id == state.task.job_id && f.file
                == #[trigger] paths::spec_table_checkpoint_path(task, t, f.epoch);
        assert forall|other: char| f.file != #[trigger] paths::spec_table_checkpoint_path(
            state.task,
            other,
            checkpoint.epoch,
        ) by {
            if f.file == paths::spec_table_checkpoint_path(state.task, other, checkpoint.epoch) {
                paths::data_files_differ(task, t, f.epoch, state.task, other, checkpoint.epoch);
            }
        }
        checkpoints_store_rows_under_their_path(
            state,
            writes,
            checkpoint,
            now,
            storage,
            table,
            f.file,
        );
    }
    checkpoints_store_rows_under_their_path(
        state,
        writes,
        checkpoint,
        now,
        storage,
        table,
        Seq::empty(),
    );
    assert(is_written(state, writes, checkpoint, table, rows, after));
    what_is_kept_is_read_back(state, writes, checkpoint, now, table, range, rows, after);
}

/// While a flusher takes writes, it asks for the next item and for nothing else.
pub proof fn writes_ask_for_the_next_item(
    state: flusher::FlusherState,
    writes: Seq<ParquetWrite>,
    i: int,
)
    requires
        state.phase is Collecting,
        0 <= i < writes.len(),
    ensures
        run(state, write_events(writes)).1.len() == writes.len(),
        run(state, write_events(writes)).1[i] is Receive,
    decreases writes.len(),
{
    let before = writes.drop_last();
    let actions = run(state, write_events(writes)).1;
    writes_are_buffered(state, before);
    assert(write_events(writes).drop_last() =~= write_events(before));
    if before.len() > 0 {
        writes_ask_for_the_next_item(
            state,
            before,
            if i < before.len() {
                i
            } else {
                0
            },
        );
    } else {
        assert(write_events(before) =~= Seq::empty());
    }
    assert(actions.drop_last() =~= run(state, write_events(before)).1);
}

/// A checkpoint asks for one upload after the other, as long as there are files to store, and
/// then for the time.
pub proof fn checkpoints_upload_and_then_ask_for_the_time(
    state: flusher::FlusherState,
    checkpoint: ParquetCheckpoint,
    uploads: nat,
)
    requires
        state.phase is Collecting,
        is_encodable(flusher::pending_of(state.buffers, state.task, checkpoint.epoch)),
        uploads <= flusher::pending_of(state.buffers, state.task, checkpoint.epoch).len(),
    ensures
        ({
            let pending = flusher::pending_of(state.buffers, state.task, checkpoint.epoch);
            let (end, actions) = run(state, checkpoint_events(checkpoint, uploads));
            &&& uploads < pending.len() ==> end.phase is Uploading && actions.last()
                is Upload
            &&& uploads == pending.len() ==> actions.last() is ReadClock && (end.phase matches
                flusher::Phase::Finishing { checkpoint: asked, .. } && asked == checkpoint)
        }),
{
    let pending = flusher::pending_of(state.buffers, state.task, checkpoint.epoch);
    checkpoints_store_every_buffer(state, checkpoint, uploads);
    if uploads < pending.len() {
        assert(pending.skip(uploads as int)[0] == pending[uploads as int]);
        assert(columns::parquet_file(pending[uploads as int].columns) is Some);
    }
}

} // verus!
