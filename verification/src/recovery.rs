//! What a subtask finds again, after it was restarted from a checkpoint, of what was written
//! before.
use vstd::prelude::*;

use crate::backend;
use crate::batch;
use crate::columns;
use crate::files;
use crate::ordered;
use crate::triples;
use crate::types;
use crate::types::{KeyRange, TableType};

verus! {

/// The range of all routing keys.
pub open spec fn full_range() -> KeyRange {
    KeyRange { start: 0, end: u64::MAX }
}

/// Those of `list` that belong to a table, were written at `epoch` and are taken over by a
/// subtask that owns `range`.
pub open spec fn taken_over(
    list: Seq<types::StoredFile>,
    tables: Map<u32, types::Table>,
    range: KeyRange,
    table: u32,
    epoch: u32,
) -> Seq<types::StoredFile> {
    list.filter(
        |f: types::StoredFile|
            backend::file_code(f) == table && f.epoch == epoch && backend::is_relevant(
                f,
                tables,
                range,
            ),
    )
}

proof fn lemma_filter_twice<A>(
    s: Seq<A>,
    first: spec_fn(A) -> bool,
    second: spec_fn(A) -> bool,
    both: spec_fn(A) -> bool,
)
    requires
        forall|a: A| #[trigger] both(a) <==> first(a) && second(a),
    ensures
        s.filter(first).filter(second) == s.filter(both),
    decreases s.len(),
{
    if s.len() == 0 {
        reveal(Seq::filter);
    } else {
        let before = s.drop_last();
        let last = s.last();
        assert(before.push(last) =~= s);
        lemma_filter_twice(before, first, second, both);
        files::lemma_filter_push(before, first, last);
        files::lemma_filter_push(before, both, last);
        assert(both(last) <==> first(last) && second(last));
        files::lemma_filter_push(before.filter(first), second, last);
    }
}

/// A subtask that starts from a checkpoint has each file that it takes over under its table and
/// the epoch at which it was written, in the order of the checkpoint's list, and nothing else.
pub proof fn restored_files_are_those_taken_over(
    list: Seq<types::StoredFile>,
    tables: Map<u32, types::Table>,
    range: KeyRange,
    table: u32,
    epoch: u32,
)
    ensures
        files::filed_under(backend::restored(list, tables, range), table, epoch) == taken_over(
            list,
            tables,
            range,
            table,
            epoch,
        ),
    decreases list.len(),
{
    if list.len() == 0 {
        reveal(Seq::filter);
    } else {
        let before = list.drop_last();
        let file = list.last();
        restored_files_are_those_taken_over(before, tables, range, table, epoch);
        assert(before.push(file) =~= list);
        files::lemma_filter_push(
            before,
            |f: types::StoredFile|
                backend::file_code(f) == table && f.epoch == epoch && backend::is_relevant(
                    f,
                    tables,
                    range,
                ),
            file,
        );
    }
}

proof fn lemma_restored_by_epoch(
    list: Seq<types::StoredFile>,
    tables: Map<u32, types::Table>,
    range: KeyRange,
    table: u32,
)
    ensures
        files::files_of(backend::restored(list, tables, range), table) == ordered::lists_below(
            |k: u32| taken_over(list, tables, range, table, k),
            0x1_0000_0000,
        ),
{
    let restored = backend::restored(list, tables, range);
    let taken = |k: u32| taken_over(list, tables, range, table, k);
    if restored.contains_key(table) {
        let found = |k: u32| files::under(restored[table], k);
        files::lemma_by_epoch(restored[table]);
        assert forall|k: u32| k < 0x1_0000_0000 implies #[trigger] found(k) == taken(k) by {
            restored_files_are_those_taken_over(list, tables, range, table, k);
        }
        ordered::lemma_same_lists(found, taken, 0x1_0000_0000);
    } else {
        assert forall|k: u32| k != 0 implies #[trigger] taken(k) == Seq::<
            types::StoredFile,
        >::empty() by {
            restored_files_are_those_taken_over(list, tables, range, table, k);
        }
        restored_files_are_those_taken_over(list, tables, range, table, 0);
        ordered::lemma_single_list(taken, 0, 0x1_0000_0000);
    }
}

/// The files of a table that a subtask takes over are those that every subtask together would,
/// less the files that hold nothing in its range of routing keys; the order is the same.
pub proof fn restoring_a_range_leaves_out_other_files_alone(
    list: Seq<types::StoredFile>,
    tables: Map<u32, types::Table>,
    range: KeyRange,
    table: u32,
)
    ensures
        files::files_of(backend::restored(list, tables, range), table) == files::files_of(
            backend::restored(list, tables, full_range()),
            table,
        ).filter(|f: types::StoredFile| backend::is_relevant(f, tables, range)),
{
    let relevant = |f: types::StoredFile| backend::is_relevant(f, tables, range);
    let all = |k: u32| taken_over(list, tables, full_range(), table, k);
    let taken = |k: u32| taken_over(list, tables, range, table, k);
    lemma_restored_by_epoch(list, tables, range, table);
    lemma_restored_by_epoch(list, tables, full_range(), table);
    ordered::lemma_filter_lists(all, relevant, 0x1_0000_0000);
    let filtered = |k: u32| all(k).filter(relevant);
    assert forall|k: u32| k < 0x1_0000_0000 implies #[trigger] filtered(k) == taken(k) by {
        lemma_filter_twice(
            list,
            |f: types::StoredFile|
                backend::file_code(f) == table && f.epoch == k && backend::is_relevant(
                    f,
                    tables,
                    full_range(),
                ),
            relevant,
            |f: types::StoredFile|
                backend::file_code(f) == table && f.epoch == k && backend::is_relevant(
                    f,
                    tables,
                    range,
                ),
        );
    }
    ordered::lemma_same_lists(filtered, taken, 0x1_0000_0000);
}

proof fn lemma_grouped_chronological(lists: spec_fn(u32) -> Seq<types::StoredFile>, bound: nat)
    requires
        forall|k: u32, i: int|
            0 <= i < lists(k).len() ==> (#[trigger] lists(k)[i]).epoch == k,
    ensures
        files::is_chronological(ordered::lists_below(lists, bound)),
        forall|i: int|
            0 <= i < ordered::lists_below(lists, bound).len() ==> (
            #[trigger] ordered::lists_below(lists, bound)[i]).epoch < bound,
    decreases bound,
{
    if bound > 0 {
        lemma_grouped_chronological(lists, (bound - 1) as nat);
        if bound <= 0x1_0000_0000 {
            let k = (bound - 1) as u32;
            let before = ordered::lists_below(lists, k as nat);
            let all = ordered::lists_below(lists, bound);
            assert forall|i: int| 0 <= i < all.len() implies (#[trigger] all[i]).epoch < bound && (i
                >= before.len() ==> all[i].epoch == k) by {
                if i < before.len() {
                    assert(all[i] == before[i]);
                } else {
                    assert(all[i] == lists(k)[i - before.len()]);
                }
            }
            assert forall|i: int, j: int| 0 <= i <= j < all.len() implies (#[trigger] all[i]).epoch
                <= (#[trigger] all[j]).epoch by {
                if j < before.len() {
                    assert(all[i] == before[i] && all[j] == before[j]);
                }
            }
        }
    }
}

/// After a restart the files of each table stand in the order in which they were written.
pub proof fn restored_files_are_chronological(
    list: Seq<types::StoredFile>,
    tables: Map<u32, types::Table>,
    range: KeyRange,
    table: u32,
)
    ensures
        files::is_chronological(
            files::files_of(backend::restored(list, tables, range), table),
        ),
{
    let taken = |k: u32| taken_over(list, tables, range, table, k);
    lemma_restored_by_epoch(list, tables, range, table);
    assert forall|k: u32, i: int| 0 <= i < taken(k).len() implies (#[trigger] taken(k)[i]).epoch
        == k by {
        list.lemma_filter_pred(
            |f: types::StoredFile|
                backend::file_code(f) == table && f.epoch == k && backend::is_relevant(
                    f,
                    tables,
                    range,
                ),
            i,
        );
    }
    lemma_grouped_chronological(taken, 0x1_0000_0000);
}

/// Whether the bounds that are kept of a file are those of `rows`.
pub open spec fn describes(file: types::StoredFile, rows: Seq<columns::DataRow>) -> bool {
    let stats = batch::stats_of(rows);
    &&& file.min_routing_key == stats.min_routing_key
    &&& file.max_routing_key == stats.max_routing_key
    &&& file.max_timestamp_micros == stats.max_timestamp
}

/// A file whose bounds lie outside a range of routing keys gives nothing in that range.
pub proof fn files_out_of_range_give_nothing(
    file: types::StoredFile,
    rows: Seq<columns::DataRow>,
    range: KeyRange,
)
    requires
        describes(file, rows),
        !backend::overlaps(file, range),
    ensures
        triples::selected(rows, range) == Seq::<triples::Triple>::empty(),
{
    assert forall|i: int| 0 <= i < rows.len() implies !range.spec_contains(
        (#[trigger] rows[i]).key_hash,
    ) by {
        batch::statistics_bound_rows(rows, i);
    }
    triples::lemma_selected_none(rows, range);
}

/// A file that is expired holds nothing but rows from before the watermark, less the retention
/// of its table.
pub proof fn expired_files_hold_old_rows_alone(
    table: types::Table,
    watermark: Option<u64>,
    file: types::StoredFile,
    rows: Seq<columns::DataRow>,
    i: int,
)
    requires
        describes(file, rows),
        files::is_expired(table, watermark, file),
        0 <= i < rows.len(),
    ensures
        watermark is Some,
        rows[i].timestamp < watermark->0 - table.retention_micros,
{
    batch::statistics_bound_rows(rows, i);
}

/// The rows of several files, one file behind the other, as `rows` gives them.
pub open spec fn rows_in(
    list: Seq<types::StoredFile>,
    rows: spec_fn(types::StoredFile) -> Seq<columns::DataRow>,
) -> Seq<columns::DataRow> {
    ordered::concat(list.map_values(rows))
}

/// The contents of several files, as `storage` has them.
pub open spec fn contents_in(
    list: Seq<types::StoredFile>,
    storage: spec_fn(Seq<char>) -> Seq<u8>,
) -> Seq<Seq<u8>> {
    list.map_values(|f: types::StoredFile| storage(f.file))
}

/// Whether `storage` has each file of `list` with the rows that `rows` gives for it, and the
/// bounds that are kept of the file are those of these rows.
pub open spec fn is_stored(
    list: Seq<types::StoredFile>,
    rows: spec_fn(types::StoredFile) -> Seq<columns::DataRow>,
    storage: spec_fn(Seq<char>) -> Seq<u8>,
) -> bool {
    forall|i: int|
        0 <= i < list.len() ==> {
            &&& describes(#[trigger] list[i], rows(list[i]))
            &&& columns::file_holds(storage(list[i].file), batch::state_columns(rows(list[i])))
        }
}

/// One more file behind several.
pub proof fn lemma_rows_push(
    list: Seq<types::StoredFile>,
    file: types::StoredFile,
    rows: spec_fn(types::StoredFile) -> Seq<columns::DataRow>,
)
    ensures
        rows_in(list.push(file), rows) == rows_in(list, rows) + rows(file),
{
    assert(list.push(file).map_values(rows) =~= list.map_values(rows).push(rows(file)));
    ordered::lemma_concat_push(list.map_values(rows), rows(file));
}

/// Files that hold nothing in the range make no difference to what is selected.
proof fn lemma_selected_from_relevant(
    list: Seq<types::StoredFile>,
    rows: spec_fn(types::StoredFile) -> Seq<columns::DataRow>,
    tables: Map<u32, types::Table>,
    range: KeyRange,
)
    requires
        forall|i: int| 0 <= i < list.len() ==> describes(#[trigger] list[i], rows(list[i])),
    ensures
        triples::selected(
            rows_in(list.filter(|f: types::StoredFile| backend::is_relevant(f, tables, range)), rows),
            range,
        ) == triples::selected(rows_in(list, rows), range),
    decreases list.len(),
{
    let relevant = |f: types::StoredFile| backend::is_relevant(f, tables, range);
    if list.len() == 0 {
        reveal(Seq::filter);
    } else {
        let before = list.drop_last();
        let file = list.last();
        assert(before.push(file) =~= list);
        assert forall|i: int| 0 <= i < before.len() implies describes(
            #[trigger] before[i],
            rows(before[i]),
        ) by {
            assert(before[i] == list[i]);
        }
        lemma_selected_from_relevant(before, rows, tables, range);
        files::lemma_filter_push(before, relevant, file);
        lemma_rows_push(before, file, rows);
        triples::lemma_selected_add(rows_in(before, rows), rows(file), range);
        assert(describes(list[list.len() - 1], rows(list[list.len() - 1])));
        if relevant(file) {
            lemma_rows_push(before.filter(relevant), file, rows);
            triples::lemma_selected_add(
                rows_in(before.filter(relevant), rows),
                rows(file),
                range,
            );
        } else {
            files_out_of_range_give_nothing(file, rows(file), range);
            assert(triples::selected(rows_in(before, rows), range) + Seq::<
                triples::Triple,
            >::empty() =~= triples::selected(rows_in(before, rows), range));
        }
    }
}

/// What a subtask reads from a table after a restart is all that the checkpoint has of the
/// table in the subtask's range of routing keys, in the order in which it was written, and each
/// of its files can be read. That the subtask takes over only some of the files loses nothing.
pub proof fn restarting_loses_nothing(
    list: Seq<types::StoredFile>,
    tables: Map<u32, types::Table>,
    range: KeyRange,
    table: u32,
    rows: spec_fn(types::StoredFile) -> Seq<columns::DataRow>,
    storage: spec_fn(Seq<char>) -> Seq<u8>,
)
    requires
        is_stored(
            files::files_of(backend::restored(list, tables, full_range()), table),
            rows,
            storage,
        ),
    ensures
        triples::all_readable(
            contents_in(files::files_of(backend::restored(list, tables, range), table), storage),
        ),
        triples::decode_files(
            contents_in(files::files_of(backend::restored(list, tables, range), table), storage),
            range,
        ) == Ok::<Seq<triples::Triple>, triples::DecodeError>(
            triples::selected(
                rows_in(
                    files::files_of(backend::restored(list, tables, full_range()), table),
                    rows,
                ),
                range,
            ),
        ),
{
    let all = files::files_of(backend::restored(list, tables, full_range()), table);
    let own = files::files_of(backend::restored(list, tables, range), table);
    let relevant = |f: types::StoredFile| backend::is_relevant(f, tables, range);
    restoring_a_range_leaves_out_other_files_alone(list, tables, range, table);
    lemma_selected_from_relevant(all, rows, tables, range);
    restored_files_are_chronological(list, tables, full_range(), table);
    files::lemma_filter_chronological(all, relevant);
    let contents = contents_in(own, storage);
    let wanted = own.map_values(rows);
    assert forall|i: int| 0 <= i < contents.len() implies columns::file_holds(
        #[trigger] contents[i],
        batch::state_columns(wanted[i]),
    ) by {
        assert(all.contains(own[i]));
        let j = choose|j: int| 0 <= j < all.len() && all[j] == own[i];
        assert(describes(all[j], rows(all[j])));
    }
    triples::several_state_files_read_back(contents, wanted, range);
}

/// Whether the files of each table are files of that table, stand in the order in which they
/// were written, and were stored at `epoch` or before.
pub open spec fn is_orderly(files: Map<u32, Map<u32, Seq<types::StoredFile>>>, epoch: u32) -> bool {
    forall|t: u32| #[trigger]
        files.contains_key(t) ==> {
            &&& files::is_chronological(files::in_epoch_order(files[t]))
            &&& forall|k: u32| #[trigger] files[t].contains_key(k) ==> k <= epoch
            &&& forall|f: types::StoredFile| #[trigger]
                files::in_epoch_order(files[t]).contains(f) ==> backend::file_code(f) == t
                    && f.epoch <= epoch
        }
}

/// Files stay orderly as the epochs go on.
pub proof fn order_outlasts_epochs(
    files: Map<u32, Map<u32, Seq<types::StoredFile>>>,
    epoch: u32,
    later: u32,
)
    requires
        is_orderly(files, epoch),
        epoch <= later,
    ensures
        is_orderly(files, later),
{
}

/// A subtask that starts from a checkpoint at `epoch` starts with orderly files.
pub proof fn restored_files_are_orderly(
    list: Seq<types::StoredFile>,
    tables: Map<u32, types::Table>,
    range: KeyRange,
    epoch: u32,
)
    requires
        forall|i: int| 0 <= i < list.len() ==> (#[trigger] list[i]).epoch <= epoch,
    ensures
        is_orderly(backend::restored(list, tables, range), epoch),
    decreases list.len(),
{
    let all = backend::restored(list, tables, range);
    assert forall|t: u32| #[trigger] all.contains_key(t) implies {
        &&& files::is_chronological(files::in_epoch_order(all[t]))
        &&& forall|k: u32| #[trigger] all[t].contains_key(k) ==> k <= epoch
        &&& forall|f: types::StoredFile| #[trigger]
            files::in_epoch_order(all[t]).contains(f) ==> backend::file_code(f) == t && f.epoch
                <= epoch
    } by {
        restored_files_are_chronological(list, tables, range, t);
        assert forall|f: types::StoredFile| #[trigger]
            files::in_epoch_order(all[t]).contains(f) implies backend::file_code(f) == t && f.epoch
            <= epoch by {
            let taken = |k: u32| taken_over(list, tables, range, t, k);
            lemma_restored_by_epoch(list, tables, range, t);
            ordered::lemma_listed(taken, f, 0x1_0000_0000);
            let k = choose|k: u32| #[trigger] taken(k).contains(f);
            lemma_taken_over(list, tables, range, t, k, f);
        }
        lemma_restored_keys(list, tables, range, t, epoch);
    }
}

proof fn lemma_taken_over(
    list: Seq<types::StoredFile>,
    tables: Map<u32, types::Table>,
    range: KeyRange,
    table: u32,
    epoch: u32,
    file: types::StoredFile,
)
    requires
        taken_over(list, tables, range, table, epoch).contains(file),
    ensures
        list.contains(file),
        backend::file_code(file) == table,
        file.epoch == epoch,
    decreases list.len(),
{
    let keep = |f: types::StoredFile|
        backend::file_code(f) == table && f.epoch == epoch && backend::is_relevant(
            f,
            tables,
            range,
        );
    if list.len() == 0 {
        reveal(Seq::filter);
    } else {
        let before = list.drop_last();
        assert(before.push(list.last()) =~= list);
        files::lemma_filter_push(before, keep, list.last());
        let kept = before.filter(keep);
        let all = list.filter(keep);
        let i = choose|i: int| 0 <= i < all.len() && all[i] == file;
        if i < kept.len() {
            assert(kept[i] == file);
            lemma_taken_over(before, tables, range, table, epoch, file);
            let j = choose|j: int| 0 <= j < before.len() && before[j] == file;
            assert(list[j] == file);
        } else {
            assert(list[list.len() - 1] == file);
        }
    }
}

proof fn lemma_restored_keys(
    list: Seq<types::StoredFile>,
    tables: Map<u32, types::Table>,
    range: KeyRange,
    table: u32,
    epoch: u32,
)
    requires
        forall|i: int| 0 <= i < list.len() ==> (#[trigger] list[i]).epoch <= epoch,
    ensures
        ({
            let all = backend::restored(list, tables, range);
            forall|k: u32|
                all.contains_key(table) && #[trigger] all[table].contains_key(k) ==> k <= epoch
        }),
    decreases list.len(),
{
    if list.len() > 0 {
        let before = list.drop_last();
        assert forall|i: int| 0 <= i < before.len() implies (#[trigger] before[i]).epoch
            <= epoch by {
            assert(before[i] == list[i]);
        }
        lemma_restored_keys(before, tables, range, table, epoch);
        assert(list[list.len() - 1].epoch <= epoch);
        let earlier = backend::restored(before, tables, range);
        let all = backend::restored(list, tables, range);
        assert forall|k: u32|
            all.contains_key(table) && #[trigger] all[table].contains_key(k) implies k <= epoch by {
            if k != list.last().epoch {
                assert(earlier.contains_key(table) && earlier[table].contains_key(k));
            }
        }
    }
}

/// A file that is stored at `epoch` leaves orderly files orderly.
pub proof fn storing_keeps_files_orderly(
    files: Map<u32, Map<u32, Seq<types::StoredFile>>>,
    epoch: u32,
    file: types::StoredFile,
)
    requires
        is_orderly(files, epoch),
        file.epoch == epoch,
    ensures
        is_orderly(
            files::with_file(files, backend::file_code(file), epoch, file),
            epoch,
        ),
{
    let table = backend::file_code(file);
    let all = files::with_file(files, table, epoch, file);
    files::new_files_come_last(files, table, epoch, file);
    let before = files::files_of(files, table);
    let list = files::in_epoch_order(all[table]);
    assert(list == before.push(file));
    assert forall|i: int| 0 <= i < before.len() implies backend::file_code(#[trigger] before[i])
        == table && before[i].epoch <= epoch by {
        assert(before.contains(before[i]));
    }
    assert forall|f: types::StoredFile| #[trigger] list.contains(f) implies backend::file_code(f)
        == table && f.epoch <= epoch by {
        let i = choose|i: int| 0 <= i < list.len() && list[i] == f;
        if i < before.len() {
            assert(before[i] == f);
        }
    }
    assert forall|i: int, j: int| 0 <= i <= j < list.len() implies (#[trigger] list[i]).epoch <= (
    #[trigger] list[j]).epoch by {
        if j < before.len() {
            assert(before[i] == list[i] && before[j] == list[j]);
        } else if i < before.len() {
            assert(before[i] == list[i]);
        }
    }
    assert forall|t: u32| #[trigger] all.contains_key(t) implies {
        &&& files::is_chronological(files::in_epoch_order(all[t]))
        &&& forall|k: u32| #[trigger] all[t].contains_key(k) ==> k <= epoch
        &&& forall|f: types::StoredFile| #[trigger]
            files::in_epoch_order(all[t]).contains(f) ==> backend::file_code(f) == t && f.epoch
                <= epoch
    } by {
        if t == table {
            if files.contains_key(table) {
                assert(forall|k: u32| #[trigger] files[table].contains_key(k) ==> k <= epoch);
            }
            assert(forall|k: u32| #[trigger] all[table].contains_key(k) ==> k <= epoch);
        } else {
            assert(files.contains_key(t));
            assert(all[t] == files[t]);
        }
    }
}

/// What a checkpoint leaves of orderly files is orderly.
pub proof fn checkpoints_keep_files_orderly(
    files: Map<u32, Map<u32, Seq<types::StoredFile>>>,
    tables: Map<u32, types::Table>,
    epoch: u32,
    watermark: Option<u64>,
)
    requires
        is_orderly(files, epoch),
    ensures
        is_orderly(files::retained(files, tables, epoch, watermark), epoch),
{
    let left = files::retained(files, tables, epoch, watermark);
    assert forall|t: u32| #[trigger] left.contains_key(t) implies {
        &&& files::is_chronological(files::in_epoch_order(left[t]))
        &&& forall|k: u32| #[trigger] left[t].contains_key(k) ==> k <= epoch
        &&& forall|f: types::StoredFile| #[trigger]
            files::in_epoch_order(left[t]).contains(f) ==> backend::file_code(f) == t && f.epoch
                <= epoch
    } by {
        assert(files.contains_key(t));
        files::checkpoints_keep_the_order(files, tables, epoch, watermark, t);
        files::tables_are_left_with_what_is_kept(files, tables, epoch, watermark, t);
        assert forall|f: types::StoredFile| #[trigger]
            files::in_epoch_order(left[t]).contains(f) implies backend::file_code(f) == t
            && f.epoch <= epoch by {
            files::nothing_is_kept_that_was_not_there(files[t], tables[t], epoch, watermark, f);
        }
    }
}

/// Grouping files by epoch, which stand in the order of their epochs, changes nothing.
proof fn lemma_regrouped(list: Seq<types::StoredFile>)
    requires
        files::is_chronological(list),
    ensures
        ordered::lists_below(
            |k: u32| list.filter(|f: types::StoredFile| f.epoch == k),
            0x1_0000_0000,
        ) == list,
    decreases list.len(),
{
    let groups = |k: u32| list.filter(|f: types::StoredFile| f.epoch == k);
    if list.len() == 0 {
        assert forall|k: u32| k != 0 implies #[trigger] groups(k) == Seq::<
            types::StoredFile,
        >::empty() by {
            reveal(Seq::filter);
        }
        assert(groups(0) =~= list) by {
            reveal(Seq::filter);
        }
        ordered::lemma_single_list(groups, 0, 0x1_0000_0000);
    } else {
        let before = list.drop_last();
        let last = list.last();
        let earlier = |k: u32| before.filter(|f: types::StoredFile| f.epoch == k);
        assert(before.push(last) =~= list);
        assert forall|i: int, j: int| 0 <= i <= j < before.len() implies (
        #[trigger] before[i]).epoch <= (#[trigger] before[j]).epoch by {
            assert(before[i] == list[i] && before[j] == list[j]);
        }
        lemma_regrouped(before);
        assert forall|k: u32| k != last.epoch implies #[trigger] groups(k) == earlier(k) by {
            files::lemma_filter_push(before, |f: types::StoredFile| f.epoch == k, last);
        }
        files::lemma_filter_push(before, |f: types::StoredFile| f.epoch == last.epoch, last);
        assert forall|k: u32| k > last.epoch implies #[trigger] earlier(k) == Seq::<
            types::StoredFile,
        >::empty() by {
            let later = |f: types::StoredFile| f.epoch == k;
            assert forall|i: int| 0 <= i < before.len() implies !later(#[trigger] before[i]) by {
                assert(before[i] == list[i]);
                assert(list[i].epoch <= list[list.len() - 1].epoch);
            }
            lemma_filter_none(before, later);
        }
        ordered::lemma_last_item(earlier, groups, last.epoch, last, 0x1_0000_0000);
    }
}

proof fn lemma_filter_none<A>(s: Seq<A>, keep: spec_fn(A) -> bool)
    requires
        forall|i: int| 0 <= i < s.len() ==> !keep(#[trigger] s[i]),
    ensures
        s.filter(keep) == Seq::<A>::empty(),
    decreases s.len(),
{
    reveal(Seq::filter);
    if s.len() > 0 {
        let before = s.drop_last();
        assert forall|i: int| 0 <= i < before.len() implies !keep(#[trigger] before[i]) by {
            assert(before[i] == s[i]);
        }
        lemma_filter_none(before, keep);
        assert(!keep(s[s.len() - 1]));
    }
}

/// A filter that every item passes changes nothing.
pub proof fn lemma_filter_all<A>(s: Seq<A>, keep: spec_fn(A) -> bool)
    requires
        forall|i: int| 0 <= i < s.len() ==> keep(#[trigger] s[i]),
    ensures
        s.filter(keep) == s,
    decreases s.len(),
{
    reveal(Seq::filter);
    if s.len() > 0 {
        let before = s.drop_last();
        assert forall|i: int| 0 <= i < before.len() implies keep(#[trigger] before[i]) by {
            assert(before[i] == s[i]);
        }
        lemma_filter_all(before, keep);
        assert(keep(s[s.len() - 1]));
        assert(before.push(s.last()) =~= s);
    }
}

/// The files of one table among all that a checkpoint lists are those that it keeps of it.
proof fn lemma_listed_of_table(
    files: Map<u32, Map<u32, Seq<types::StoredFile>>>,
    tables: Map<u32, types::Table>,
    epoch: u32,
    watermark: Option<u64>,
    table: u32,
)
    requires
        is_orderly(files, epoch),
    ensures
        files::kept_files(files, tables, epoch, watermark).filter(
            |f: types::StoredFile| backend::file_code(f) == table,
        ) == files::files_of(files::retained(files, tables, epoch, watermark), table),
{
    let left = files::retained(files, tables, epoch, watermark);
    let own = |f: types::StoredFile| backend::file_code(f) == table;
    let lists = |t: u32| files::files_of(left, t);
    let filtered = |t: u32| lists(t).filter(own);
    checkpoints_keep_files_orderly(files, tables, epoch, watermark);
    files::checkpoints_list_what_is_left(files, tables, epoch, watermark);
    ordered::lemma_lists_below(
        left.dom(),
        |t: u32| files::in_epoch_order(left[t]),
        lists,
        0x1_0000_0000,
    );
    ordered::lemma_filter_lists(lists, own, 0x1_0000_0000);
    assert forall|t: u32| t != table implies #[trigger] filtered(t) == Seq::<
        types::StoredFile,
    >::empty() by {
        let list = lists(t);
        assert forall|i: int| 0 <= i < list.len() implies !own(#[trigger] list[i]) by {
            assert(list.contains(list[i]));
        }
        lemma_filter_none(list, own);
    }
    let list = lists(table);
    assert forall|i: int| 0 <= i < list.len() implies own(#[trigger] list[i]) by {
        assert(list.contains(list[i]));
    }
    lemma_filter_all(list, own);
    ordered::lemma_single_list(filtered, table, 0x1_0000_0000);
}

/// Whoever starts from what a checkpoint lists has, in each table, exactly the files that were
/// left after the checkpoint, in the same order.
pub proof fn restarting_finds_what_is_left(
    files: Map<u32, Map<u32, Seq<types::StoredFile>>>,
    tables: Map<u32, types::Table>,
    epoch: u32,
    watermark: Option<u64>,
    table: u32,
)
    requires
        is_orderly(files, epoch),
    ensures
        files::files_of(
            backend::restored(
                files::kept_files(files, tables, epoch, watermark),
                tables,
                full_range(),
            ),
            table,
        ) == files::files_of(files::retained(files, tables, epoch, watermark), table),
{
    let listed = files::kept_files(files, tables, epoch, watermark);
    let left = files::retained(files, tables, epoch, watermark);
    let own = |f: types::StoredFile| backend::file_code(f) == table;
    let kept = files::files_of(left, table);
    let taken = |k: u32| taken_over(listed, tables, full_range(), table, k);
    let groups = |k: u32| kept.filter(|f: types::StoredFile| f.epoch == k);
    checkpoints_keep_files_orderly(files, tables, epoch, watermark);
    lemma_listed_of_table(files, tables, epoch, watermark, table);
    lemma_restored_by_epoch(listed, tables, full_range(), table);
    assert forall|k: u32| k < 0x1_0000_0000 implies #[trigger] taken(k) == groups(k) by {
        lemma_filter_twice(
            listed,
            own,
            |f: types::StoredFile| f.epoch == k,
            |f: types::StoredFile|
                backend::file_code(f) == table && f.epoch == k && backend::is_relevant(
                    f,
                    tables,
                    full_range(),
                ),
        );
    }
    ordered::lemma_same_lists(taken, groups, 0x1_0000_0000);
    lemma_regrouped(kept);
}

/// After a restart a subtask has under each table and epoch, in the order of the checkpoint's
/// list, the files whose table begins with the table's character and that were written at the
/// epoch: of a global table all, and of any other those that do not end before the range of the
/// subtask starts nor start after it ends.
pub proof fn restarts_take_over_by_table_and_range(
    list: Seq<types::StoredFile>,
    tables: Map<u32, types::Table>,
    range: KeyRange,
    table: u32,
    epoch: u32,
)
    ensures
        tables[table].table_type == TableType::Global ==> files::filed_under(
            backend::restored(list, tables, range),
            table,
            epoch,
        ) == list.filter(|f: types::StoredFile| f.table[0] as u32 == table && f.epoch == epoch),
        tables[table].table_type != TableType::Global ==> files::filed_under(
            backend::restored(list, tables, range),
            table,
            epoch,
        ) == list.filter(
            |f: types::StoredFile|
                f.table[0] as u32 == table && f.epoch == epoch && range.start
                    <= f.max_routing_key && f.min_routing_key <= range.end,
        ),
{
    restored_files_are_those_taken_over(list, tables, range, table, epoch);
    let taken = |f: types::StoredFile|
        backend::file_code(f) == table && f.epoch == epoch && backend::is_relevant(
            f,
            tables,
            range,
        );
    if tables[table].table_type == TableType::Global {
        assert(taken =~= (|f: types::StoredFile|
            f.table[0] as u32 == table && f.epoch == epoch));
    } else {
        assert(taken =~= (|f: types::StoredFile|
            f.table[0] as u32 == table && f.epoch == epoch && range.start <= f.max_routing_key
                && f.min_routing_key <= range.end));
    }
}

/// Every subtask has the same files of a global table after a restart, whatever range of routing
/// keys it owns: all that the checkpoint lists for the table.
pub proof fn global_files_reach_every_subtask(
    list: Seq<types::StoredFile>,
    tables: Map<u32, types::Table>,
    range: KeyRange,
    other: KeyRange,
    table: u32,
    file: types::StoredFile,
)
    requires
        tables[table].table_type == TableType::Global,
    ensures
        files::files_of(backend::restored(list, tables, range), table) == files::files_of(
            backend::restored(list, tables, other),
            table,
        ),
        files::files_of(backend::restored(list, tables, range), table).contains(file)
            <==> list.contains(file) && file.table[0] as u32 == table,
{
    let mine = backend::restored(list, tables, range);
    let theirs = backend::restored(list, tables, other);
    let taken = |k: u32| taken_over(list, tables, range, table, k);
    let taken_there = |k: u32| taken_over(list, tables, other, table, k);
    lemma_restored_by_epoch(list, tables, range, table);
    lemma_restored_by_epoch(list, tables, other, table);
    assert forall|k: u32| k < 0x1_0000_0000 implies #[trigger] taken(k) == taken_there(k) by {
        restarts_take_over_by_table_and_range(list, tables, range, table, k);
        restarts_take_over_by_table_and_range(list, tables, other, table, k);
        restored_files_are_those_taken_over(list, tables, range, table, k);
        restored_files_are_those_taken_over(list, tables, other, table, k);
    }
    ordered::lemma_same_lists(taken, taken_there, 0x1_0000_0000);
    files::tables_have_what_is_filed_under_them(mine, table, file);
    if list.contains(file) && file.table[0] as u32 == table {
        restarts_take_over_by_table_and_range(list, tables, range, table, file.epoch);
        let i = choose|i: int| 0 <= i < list.len() && list[i] == file;
        list.lemma_filter_contains(
            |f: types::StoredFile| f.table[0] as u32 == table && f.epoch == file.epoch,
            i,
        );
        assert(files::filed_under(mine, table, file.epoch).contains(file));
    }
    if exists|k: u32| #[trigger] files::filed_under(mine, table, k).contains(file) {
        let k = choose|k: u32| #[trigger] files::filed_under(mine, table, k).contains(file);
        restored_files_are_those_taken_over(list, tables, range, table, k);
        lemma_taken_over(list, tables, range, table, k, file);
    }
}

/// Every subtask reads all rows of a global table, whatever range of routing keys it owns.
pub proof fn global_state_is_read_whole(
    list: Seq<types::StoredFile>,
    tables: Map<u32, types::Table>,
    range: KeyRange,
    table: u32,
    rows: spec_fn(types::StoredFile) -> Seq<columns::DataRow>,
    storage: spec_fn(Seq<char>) -> Seq<u8>,
)
    requires
        tables[table].table_type == TableType::Global,
        is_stored(
            files::files_of(backend::restored(list, tables, full_range()), table),
            rows,
            storage,
        ),
    ensures
        triples::decode_files(
            contents_in(files::files_of(backend::restored(list, tables, range), table), storage),
            KeyRange { start: 0, end: u64::MAX },
        ) == Ok::<Seq<triples::Triple>, triples::DecodeError>(
            rows_in(
                files::files_of(backend::restored(list, tables, full_range()), table),
                rows,
            ).map_values(
                |r: columns::DataRow|
                    triples::Triple { timestamp: r.timestamp, key: r.key, value: r.data },
            ),
        ),
{
    let all = files::files_of(backend::restored(list, tables, full_range()), table);
    let held = rows_in(all, rows);
    if list.len() > 0 {
        global_files_reach_every_subtask(list, tables, range, full_range(), table, list[0]);
    } else {
        assert(backend::restored(list, tables, range) == backend::restored(
            list,
            tables,
            full_range(),
        ));
    }
    restarting_loses_nothing(list, tables, full_range(), table, rows, storage);
    triples::full_range_selects_all(held);
    assert(held.map_values(|r: columns::DataRow| triples::triple_of(r)) =~= held.map_values(
        |r: columns::DataRow|
            triples::Triple { timestamp: r.timestamp, key: r.key, value: r.data },
    ));
}

/// Where two subtasks split the range of one, they together read from a table after a restart
/// what the one would, each row once.
pub proof fn subtasks_share_a_table(
    list: Seq<types::StoredFile>,
    tables: Map<u32, types::Table>,
    start: u64,
    middle: u64,
    end: u64,
    table: u32,
    rows: spec_fn(types::StoredFile) -> Seq<columns::DataRow>,
    storage: spec_fn(Seq<char>) -> Seq<u8>,
)
    requires
        start <= middle < end,
        is_stored(
            files::files_of(backend::restored(list, tables, full_range()), table),
            rows,
            storage,
        ),
    ensures
        ({
            let whole = KeyRange { start, end };
            let low = KeyRange { start, end: middle };
            let high = KeyRange { start: (middle + 1) as u64, end };
            let read = |range: KeyRange|
                triples::decode_files(
                    contents_in(
                        files::files_of(backend::restored(list, tables, range), table),
                        storage,
                    ),
                    range,
                );
            &&& read(whole) is Ok && read(low) is Ok && read(high) is Ok
            &&& (read(whole)->Ok_0).to_multiset() == (read(low)->Ok_0).to_multiset().add(
                (read(high)->Ok_0).to_multiset(),
            )
        }),
{
    let held = rows_in(
        files::files_of(backend::restored(list, tables, full_range()), table),
        rows,
    );
    let whole = KeyRange { start, end };
    let low = KeyRange { start, end: middle };
    let high = KeyRange { start: (middle + 1) as u64, end };
    restarting_loses_nothing(list, tables, whole, table, rows, storage);
    restarting_loses_nothing(list, tables, low, table, rows, storage);
    restarting_loses_nothing(list, tables, high, table, rows, storage);
    triples::split_ranges_read_every_row_once(held, start, middle, end);
}

} // verus!
