//! Reading rows of state back from the bytes of a state file.
use vstd::prelude::*;

use crate::batch;
use crate::columns;
use crate::columns::{ColumnData, ReadBatch};
use crate::ordered;
use crate::types::KeyRange;

verus! {

/// A timestamp in microseconds with the encoded key and the encoded value that it was
/// written with.
#[derive(Debug)]
pub struct DataTriple {
    pub timestamp: u64,
    pub key: Vec<u8>,
    pub value: Vec<u8>,
}

/// What a [`DataTriple`] says, over mathematical values.
pub struct Triple {
    pub timestamp: u64,
    pub key: Seq<u8>,
    pub value: Seq<u8>,
}

impl View for DataTriple {
    type V = Triple;

    open spec fn view(&self) -> Triple {
        Triple { timestamp: self.timestamp, key: self.key@, value: self.value@ }
    }
}

/// Why the bytes of a state file give no rows.
#[derive(Clone, Copy, Debug, PartialEq, Eq, Structural)]
pub enum DecodeError {
    /// The column at this index is missing or of another type than state files have there.
    UnexpectedColumn(usize),
}

/// What a list of triples says, over mathematical values.
pub open spec fn triple_views(triples: Seq<DataTriple>) -> Seq<Triple> {
    triples.map_values(|t: DataTriple| t@)
}

/// The outcome of reading, over mathematical values.
pub open spec fn outcome(result: Result<Vec<DataTriple>, DecodeError>) -> Result<
    Seq<Triple>,
    DecodeError,
> {
    match result {
        Ok(triples) => Ok(triple_views(triples@)),
        Err(e) => Err(e),
    }
}

/// The triple that a row holds.
pub open spec fn triple_of(row: columns::DataRow) -> Triple {
    Triple { timestamp: row.timestamp, key: row.key, value: row.data }
}

/// The triples of those of `rows` whose routing key lies in `range`, in order.
pub open spec fn selected(rows: Seq<columns::DataRow>, range: KeyRange) -> Seq<Triple> {
    rows.filter(|r: columns::DataRow| range.spec_contains(r.key_hash)).map_values(
        |r: columns::DataRow| triple_of(r),
    )
}

/// What one batch gives: an error that names the first column that is not as state files
/// have it, or else the triples of its rows in `range`.
pub open spec fn decode_columns(columns: Seq<columns::ColumnValues>, range: KeyRange) -> Result<
    Seq<Triple>,
    DecodeError,
> {
    if !(columns.len() > 0 && columns[0] is UInt64) {
        Err(DecodeError::UnexpectedColumn(0))
    } else if !(columns.len() > 1 && columns[1] is TimestampMicros) {
        Err(DecodeError::UnexpectedColumn(1))
    } else if !(columns.len() > 2 && columns[2] is Binary) {
        Err(DecodeError::UnexpectedColumn(2))
    } else if !(columns.len() > 3 && columns[3] is Binary) {
        Err(DecodeError::UnexpectedColumn(3))
    } else {
        Ok(selected(columns::rows_of(columns), range))
    }
}

/// What several batches give: the error of the first batch that has one, or else all triples,
/// one batch behind the other.
pub open spec fn decode_batches(batches: Seq<Seq<columns::Column>>, range: KeyRange) -> Result<
    Seq<Triple>,
    DecodeError,
>
    decreases batches.len(),
{
    if batches.len() == 0 {
        Ok(Seq::empty())
    } else {
        match decode_batches(batches.drop_last(), range) {
            Ok(before) => match decode_columns(columns::values_of(batches.last()), range) {
                Ok(triples) => Ok(before + triples),
                Err(e) => Err(e),
            },
            Err(e) => Err(e),
        }
    }
}

/// What a file gives that can be read.
pub open spec fn decode_file(bytes: Seq<u8>, range: KeyRange) -> Result<Seq<Triple>, DecodeError> {
    decode_batches(columns::parquet_batches(bytes)->0, range)
}

/// Whether each of several files can be read.
pub open spec fn all_readable(files: Seq<Seq<u8>>) -> bool {
    forall|i: int| 0 <= i < files.len() ==> columns::is_readable(#[trigger] files[i])
}

/// What several files give: the error of the first file that has one, or else all triples,
/// one file behind the other.
pub open spec fn decode_files(files: Seq<Seq<u8>>, range: KeyRange) -> Result<
    Seq<Triple>,
    DecodeError,
>
    decreases files.len(),
{
    if files.len() == 0 {
        Ok(Seq::empty())
    } else {
        match decode_files(files.drop_last(), range) {
            Ok(before) => match decode_file(files.last(), range) {
                Ok(triples) => Ok(before + triples),
                Err(e) => Err(e),
            },
            Err(e) => Err(e),
        }
    }
}

proof fn lemma_selected_push(rows: Seq<columns::DataRow>, row: columns::DataRow, range: KeyRange)
    ensures
        selected(rows.push(row), range) == if range.spec_contains(row.key_hash) {
            selected(rows, range).push(triple_of(row))
        } else {
            selected(rows, range)
        },
{
    reveal(Seq::filter);
    assert(rows.push(row).drop_last() =~= rows);
    assert(selected(rows.push(row), range) =~= if range.spec_contains(row.key_hash) {
        selected(rows, range).push(triple_of(row))
    } else {
        selected(rows, range)
    });
}

/// What one batch of state gives: the triples of its rows whose routing key lies in `range`.
pub fn triples_from_columns(data: &Vec<ColumnData>, range: &KeyRange) -> (triples: Result<
    Vec<DataTriple>,
    DecodeError,
>)
    requires
        columns::is_rectangular(data@.map_values(|c: ColumnData| c@)),
    ensures
        outcome(triples) == decode_columns(data@.map_values(|c: ColumnData| c@), *range),
{
    let ghost views = data@.map_values(|c: ColumnData| c@);
    if data.len() <= 0 {
        return Err(DecodeError::UnexpectedColumn(0));
    }
    assert(views[0] == data[0]@);
    let key_hashes: &Vec<u64> = match &data[0] {
        ColumnData::UInt64(values) => values,
        _ => {
            return Err(DecodeError::UnexpectedColumn(0));
        },
    };
    if data.len() <= 1 {
        return Err(DecodeError::UnexpectedColumn(1));
    }
    assert(views[1] == data[1]@);
    let times: &Vec<i64> = match &data[1] {
        ColumnData::TimestampMicros(values) => values,
        _ => {
            return Err(DecodeError::UnexpectedColumn(1));
        },
    };
    if data.len() <= 2 {
        return Err(DecodeError::UnexpectedColumn(2));
    }
    assert(views[2] == data[2]@);
    let keys: &Vec<Vec<u8>> = match &data[2] {
        ColumnData::Binary(values) => values,
        _ => {
            return Err(DecodeError::UnexpectedColumn(2));
        },
    };
    if data.len() <= 3 {
        return Err(DecodeError::UnexpectedColumn(3));
    }
    assert(views[3] == data[3]@);
    let values: &Vec<Vec<u8>> = match &data[3] {
        ColumnData::Binary(values) => values,
        _ => {
            return Err(DecodeError::UnexpectedColumn(3));
        },
    };
    let ghost rows = columns::rows_of(views);
    let mut result: Vec<DataTriple> = Vec::new();
    let mut index: usize = 0;
    assert(selected(rows.take(0), *range) =~= Seq::<Triple>::empty()) by {
        reveal(Seq::filter);
    }
    assert(triple_views(result@) =~= Seq::<Triple>::empty());
    while index < key_hashes.len()
        invariant
            index <= key_hashes@.len(),
            rows == columns::rows_of(views),
            views[0] == columns::ColumnValues::UInt64(key_hashes@),
            views[1] == columns::ColumnValues::TimestampMicros(times@),
            views[2] == columns::ColumnValues::Binary(keys@.map_values(|b: Vec<u8>| b@)),
            views[3] == columns::ColumnValues::Binary(values@.map_values(|b: Vec<u8>| b@)),
            key_hashes@.len() == times@.len(),
            key_hashes@.len() == keys@.len(),
            key_hashes@.len() == values@.len(),
            triple_views(result@) == selected(rows.take(index as int), *range),
        decreases key_hashes.len() - index,
    {
        let ghost before = result@;
        let ghost row = rows[index as int];
        if range.contains(key_hashes[index]) {
            result.push(
                DataTriple {
                    timestamp: times[index] as u64,
                    key: keys[index].clone(),
                    value: values[index].clone(),
                },
            );
            assert(result@.last()@ == triple_of(row)) by {
                assert(result@.last()@.key =~= row.key);
                assert(result@.last()@.value =~= row.data);
            }
            assert(triple_views(result@) =~= triple_views(before).push(triple_of(row)));
        }
        proof {
            lemma_selected_push(rows.take(index as int), row, *range);
            assert(rows.take(index as int).push(row) =~= rows.take(index + 1));
        }
        index = index + 1;
    }
    assert(rows.take(index as int) =~= rows);
    Ok(result)
}

/// What several batches give, one behind the other.
fn triples_from_batches(batches: &Vec<ReadBatch>, range: &KeyRange) -> (triples: Result<
    Vec<DataTriple>,
    DecodeError,
>)
    ensures
        outcome(triples) == decode_batches(
            batches@.map_values(|b: ReadBatch| columns::read_columns(b)),
            *range,
        ),
{
    let ghost all = batches@.map_values(|b: ReadBatch| columns::read_columns(b));
    let mut result: Vec<DataTriple> = Vec::new();
    let mut i: usize = 0;
    assert(triple_views(result@) =~= Seq::<Triple>::empty());
    while i < batches.len()
        invariant
            i <= batches@.len(),
            all == batches@.map_values(|b: ReadBatch| columns::read_columns(b)),
            decode_batches(all.take(i as int), *range) == Ok::<Seq<Triple>, DecodeError>(
                triple_views(result@),
            ),
        decreases batches.len() - i,
    {
        let ghost before = result@;
        let data: Vec<ColumnData> = columns::column_data(&batches[i]);
        proof {
            assert(all.take(i + 1).drop_last() =~= all.take(i as int));
            assert(all.take(i + 1).last() == columns::read_columns(batches[i as int]));
        }
        match triples_from_columns(&data, range) {
            Ok(triples) => {
                let mut triples: Vec<DataTriple> = triples;
                let ghost added = triples@;
                result.append(&mut triples);
                assert(triple_views(result@) =~= triple_views(before) + triple_views(added));
            },
            Err(e) => {
                proof {
                    lemma_decode_error_stays(all, (i + 1) as nat, *range);
                }
                return Err(e);
            },
        }
        i = i + 1;
    }
    assert(all.take(i as int) =~= all);
    Ok(result)
}

proof fn lemma_decode_error_stays(batches: Seq<Seq<columns::Column>>, n: nat, range: KeyRange)
    requires
        n <= batches.len(),
        decode_batches(batches.take(n as int), range) is Err,
    ensures
        decode_batches(batches, range) == decode_batches(batches.take(n as int), range),
    decreases batches.len() - n,
{
    if n < batches.len() {
        assert(batches.take((n + 1) as int).drop_last() =~= batches.take(n as int));
        lemma_decode_error_stays(batches, n + 1, range);
    } else {
        assert(batches.take(n as int) =~= batches);
    }
}

/// An error of some files is the error of them and all that come behind.
pub proof fn lemma_file_error_stays(files: Seq<Seq<u8>>, n: nat, range: KeyRange)
    requires
        n <= files.len(),
        decode_files(files.take(n as int), range) is Err,
    ensures
        decode_files(files, range) == decode_files(files.take(n as int), range),
    decreases files.len() - n,
{
    if n < files.len() {
        assert(files.take((n + 1) as int).drop_last() =~= files.take(n as int));
        lemma_file_error_stays(files, n + 1, range);
    } else {
        assert(files.take(n as int) =~= files);
    }
}

/// The triples in the bytes of a state file whose routing key lies in `range`.
pub fn triples_from_bytes(bytes: &Vec<u8>, range: &KeyRange) -> (triples: Result<
    Vec<DataTriple>,
    DecodeError,
>)
    requires
        columns::is_readable(bytes@),
    ensures
        outcome(triples) == decode_file(bytes@, *range),
{
    let batches: Vec<ReadBatch> = columns::read_batches(bytes).unwrap();
    triples_from_batches(&batches, range)
}

/// The bytes of several files.
pub open spec fn contents_of(files: Seq<Vec<u8>>) -> Seq<Seq<u8>> {
    files.map_values(|f: Vec<u8>| f@)
}

/// The rows of two lists are selected one list behind the other.
pub proof fn lemma_selected_add(
    rows: Seq<columns::DataRow>,
    more: Seq<columns::DataRow>,
    range: KeyRange,
)
    ensures
        selected(rows + more, range) == selected(rows, range) + selected(more, range),
{
    Seq::filter_distributes_over_add(
        rows,
        more,
        |r: columns::DataRow| range.spec_contains(r.key_hash),
    );
    assert(selected(rows + more, range) =~= selected(rows, range) + selected(more, range));
}

/// Where no row has a routing key in the range, no row is selected.
pub proof fn lemma_selected_none(rows: Seq<columns::DataRow>, range: KeyRange)
    requires
        forall|i: int| 0 <= i < rows.len() ==> !range.spec_contains((#[trigger] rows[i]).key_hash),
    ensures
        selected(rows, range) == Seq::<Triple>::empty(),
    decreases rows.len(),
{
    if rows.len() > 0 {
        let before = rows.drop_last();
        assert forall|i: int| 0 <= i < before.len() implies !range.spec_contains(
            (#[trigger] before[i]).key_hash,
        ) by {
            assert(before[i] == rows[i]);
        }
        lemma_selected_none(before, range);
        assert(before.push(rows.last()) =~= rows);
        assert(!range.spec_contains(rows[rows.len() - 1].key_hash));
        lemma_selected_push(before, rows.last(), range);
    } else {
        reveal(Seq::filter);
        assert(selected(rows, range) =~= Seq::<Triple>::empty());
    }
}

/// The range of all routing keys selects every row.
pub proof fn full_range_selects_all(rows: Seq<columns::DataRow>)
    ensures
        selected(rows, KeyRange { start: 0, end: u64::MAX }) == rows.map_values(
            |r: columns::DataRow| triple_of(r),
        ),
    decreases rows.len(),
{
    let range = KeyRange { start: 0, end: u64::MAX };
    if rows.len() > 0 {
        full_range_selects_all(rows.drop_last());
        assert(rows.drop_last().push(rows.last()) =~= rows);
        lemma_selected_push(rows.drop_last(), rows.last(), range);
        assert(selected(rows, range) =~= rows.map_values(|r: columns::DataRow| triple_of(r)));
    } else {
        reveal(Seq::filter);
        assert(selected(rows, range) =~= rows.map_values(|r: columns::DataRow| triple_of(r)));
    }
}

proof fn lemma_decode_state_batches(batches: Seq<Seq<columns::Column>>, range: KeyRange)
    requires
        forall|i: int| 0 <= i < batches.len() ==> columns::is_state_batch(#[trigger] batches[i]),
    ensures
        decode_batches(batches, range) == Ok::<Seq<Triple>, DecodeError>(
            selected(columns::all_rows(batches), range),
        ),
    decreases batches.len(),
{
    if batches.len() > 0 {
        let before = batches.drop_last();
        assert forall|i: int| 0 <= i < before.len() implies columns::is_state_batch(
            #[trigger] before[i],
        ) by {
            assert(before[i] == batches[i]);
        }
        lemma_decode_state_batches(before, range);
        assert(columns::is_state_batch(batches[batches.len() - 1]));
        lemma_selected_add(
            columns::all_rows(before),
            columns::rows_of(columns::values_of(batches.last())),
            range,
        );
    } else {
        lemma_selected_none(columns::all_rows(batches), range);
    }
}

/// A state file can be read and gives back the rows that it was made of: reading it with a range
/// of routing keys gives those of them in the range, in the order in which they were written.
pub proof fn state_files_read_back(bytes: Seq<u8>, rows: Seq<columns::DataRow>, range: KeyRange)
    requires
        columns::file_holds(bytes, batch::state_columns(rows)),
    ensures
        columns::is_readable(bytes),
        decode_file(bytes, range) == Ok::<Seq<Triple>, DecodeError>(selected(rows, range)),
{
    let batches = columns::parquet_batches(bytes)->0;
    assert forall|i: int| 0 <= i < batches.len() implies columns::is_state_batch(
        #[trigger] batches[i],
    ) by {}
    lemma_decode_state_batches(batches, range);
    batch::columns_keep_rows(rows);
}

/// Several state files can be read and give back the rows that they were made of, one file
/// behind the other.
pub proof fn several_state_files_read_back(
    files: Seq<Seq<u8>>,
    contents: Seq<Seq<columns::DataRow>>,
    range: KeyRange,
)
    requires
        files.len() == contents.len(),
        forall|i: int|
            0 <= i < files.len() ==> columns::file_holds(
                #[trigger] files[i],
                batch::state_columns(contents[i]),
            ),
    ensures
        all_readable(files),
        decode_files(files, range) == Ok::<Seq<Triple>, DecodeError>(
            selected(ordered::concat(contents), range),
        ),
    decreases files.len(),
{
    if files.len() > 0 {
        let before = files.drop_last();
        assert forall|i: int| 0 <= i < before.len() implies columns::file_holds(
            #[trigger] before[i],
            batch::state_columns(contents.drop_last()[i]),
        ) by {
            assert(before[i] == files[i]);
        }
        several_state_files_read_back(before, contents.drop_last(), range);
        assert(columns::file_holds(
            files[files.len() - 1],
            batch::state_columns(contents[files.len() - 1]),
        ));
        state_files_read_back(files.last(), contents.last(), range);
        lemma_selected_add(ordered::concat(contents.drop_last()), contents.last(), range);
    } else {
        lemma_selected_none(ordered::concat(contents), range);
    }
}

/// A row is read exactly where its routing key is neither below the start of the range nor above
/// its end, with its own timestamp, key and value, and behind the rows before it.
pub proof fn rows_are_read_by_their_routing_key(
    rows: Seq<columns::DataRow>,
    row: columns::DataRow,
    range: KeyRange,
)
    ensures
        selected(Seq::empty(), range) == Seq::<Triple>::empty(),
        range.start <= row.key_hash && row.key_hash <= range.end ==> selected(
            rows.push(row),
            range,
        ) == selected(rows, range).push(
            Triple { timestamp: row.timestamp, key: row.key, value: row.data },
        ),
        row.key_hash < range.start || range.end < row.key_hash ==> selected(rows.push(row), range)
            == selected(rows, range),
{
    lemma_selected_none(Seq::empty(), range);
    lemma_selected_push(rows, row, range);
}

/// Where a range is split in two, the two parts together read what the whole range reads, each
/// row once.
pub proof fn split_ranges_read_every_row_once(
    rows: Seq<columns::DataRow>,
    start: u64,
    middle: u64,
    end: u64,
)
    requires
        start <= middle < end,
    ensures
        selected(rows, KeyRange { start, end }).to_multiset() == selected(
            rows,
            KeyRange { start, end: middle },
        ).to_multiset().add(
            selected(rows, KeyRange { start: (middle + 1) as u64, end }).to_multiset(),
        ),
    decreases rows.len(),
{
    let whole = KeyRange { start, end };
    let low = KeyRange { start, end: middle };
    let high = KeyRange { start: (middle + 1) as u64, end };
    if rows.len() == 0 {
        lemma_selected_none(rows, whole);
        lemma_selected_none(rows, low);
        lemma_selected_none(rows, high);
        let none = Seq::<Triple>::empty();
        vstd::seq_lib::to_multiset_len(none);
        assert(none.to_multiset().add(none.to_multiset()) =~= none.to_multiset());
    } else {
        let before = rows.drop_last();
        let row = rows.last();
        let triple = triple_of(row);
        assert(before.push(row) =~= rows);
        split_ranges_read_every_row_once(before, start, middle, end);
        lemma_selected_push(before, row, whole);
        lemma_selected_push(before, row, low);
        lemma_selected_push(before, row, high);
        vstd::seq_lib::to_multiset_build(selected(before, whole), triple);
        vstd::seq_lib::to_multiset_build(selected(before, low), triple);
        vstd::seq_lib::to_multiset_build(selected(before, high), triple);
        assert(selected(rows, whole).to_multiset() =~= selected(rows, low).to_multiset().add(
            selected(rows, high).to_multiset(),
        ));
    }
}

/// A batch whose first four columns are of the types of state files gives, row by row, what
/// stands in them; further columns make no difference.
pub proof fn batches_are_read_row_by_row(
    key_hashes: Seq<u64>,
    times: Seq<i64>,
    keys: Seq<Seq<u8>>,
    values: Seq<Seq<u8>>,
    more: Seq<columns::ColumnValues>,
    range: KeyRange,
)
    ensures
        decode_columns(
            seq![
                columns::ColumnValues::UInt64(key_hashes),
                columns::ColumnValues::TimestampMicros(times),
                columns::ColumnValues::Binary(keys),
                columns::ColumnValues::Binary(values),
            ] + more,
            range,
        ) == Ok::<Seq<Triple>, DecodeError>(
            selected(
                Seq::new(
                    key_hashes.len(),
                    |i: int|
                        columns::DataRow {
                            key_hash: key_hashes[i],
                            timestamp: times[i] as u64,
                            key: keys[i],
                            data: values[i],
                        },
                ),
                range,
            ),
        ),
{
    let columns = seq![
        columns::ColumnValues::UInt64(key_hashes),
        columns::ColumnValues::TimestampMicros(times),
        columns::ColumnValues::Binary(keys),
        columns::ColumnValues::Binary(values),
    ] + more;
    let rows = Seq::new(
        key_hashes.len(),
        |i: int|
            columns::DataRow {
                key_hash: key_hashes[i],
                timestamp: times[i] as u64,
                key: keys[i],
                data: values[i],
            },
    );
    assert(columns::rows_of(columns) =~= rows);
}

/// Whether the column at `i` is there and of the type that state files have there.
pub open spec fn is_as_expected(columns: Seq<columns::ColumnValues>, i: int) -> bool {
    i < columns.len() && match columns[i] {
        columns::ColumnValues::UInt64(_) => i == 0,
        columns::ColumnValues::TimestampMicros(_) => i == 1,
        columns::ColumnValues::Binary(_) => i == 2 || i == 3,
        columns::ColumnValues::Other => false,
    }
}

/// A batch is refused exactly where one of its first four columns is not as state files have it,
/// and the error names the first such column.
pub proof fn batches_are_refused_by_their_first_wrong_column(
    columns: Seq<columns::ColumnValues>,
    range: KeyRange,
)
    ensures
        match decode_columns(columns, range) {
            Ok(_) => forall|i: int| 0 <= i < 4 ==> #[trigger] is_as_expected(columns, i),
            Err(DecodeError::UnexpectedColumn(at)) => {
                &&& at < 4
                &&& !is_as_expected(columns, at as int)
                &&& forall|i: int| 0 <= i < at ==> #[trigger] is_as_expected(columns, i)
            },
        },
{
}

/// Batches are read one behind the other, and so are files; the first error ends the reading.
pub proof fn reading_goes_on_until_the_first_error(
    batches: Seq<Seq<columns::Column>>,
    batch: Seq<columns::Column>,
    files: Seq<Seq<u8>>,
    file: Seq<u8>,
    range: KeyRange,
)
    ensures
        decode_batches(Seq::empty(), range) == Ok::<Seq<Triple>, DecodeError>(Seq::empty()),
        decode_files(Seq::empty(), range) == Ok::<Seq<Triple>, DecodeError>(Seq::empty()),
        decode_batches(batches, range) is Err ==> decode_batches(batches.push(batch), range)
            == decode_batches(batches, range),
        decode_files(files, range) is Err ==> decode_files(files.push(file), range)
            == decode_files(files, range),
        decode_batches(batches, range) matches Ok(before) ==> match decode_columns(
            batch.map_values(|c: columns::Column| c.values),
            range,
        ) {
            Ok(list) => decode_batches(batches.push(batch), range) == Ok::<
                Seq<Triple>,
                DecodeError,
            >(before + list),
            Err(e) => decode_batches(batches.push(batch), range) == Err::<
                Seq<Triple>,
                DecodeError,
            >(e),
        },
        decode_files(files, range) matches Ok(before) ==> match columns::parquet_batches(file) {
            Some(all) => match decode_batches(all, range) {
                Ok(list) => decode_files(files.push(file), range) == Ok::<Seq<Triple>, DecodeError>(
                    before + list,
                ),
                Err(e) => decode_files(files.push(file), range) == Err::<Seq<Triple>, DecodeError>(
                    e,
                ),
            },
            None => true,
        },
{
    assert(batches.push(batch).drop_last() =~= batches);
    assert(files.push(file).drop_last() =~= files);
}

/// Triples are seen field by field, and the outcome of reading as it is.
pub proof fn outcomes_are_seen_as_they_are(list: Vec<DataTriple>, e: DecodeError, i: int)
    ensures
        outcome(Ok(list)) matches Ok(seen) && seen.len() == list@.len() && (0 <= i < list@.len()
            ==> seen[i].timestamp == list@[i].timestamp && seen[i].key == list@[i].key@
            && seen[i].value == list@[i].value@),
        outcome(Err(e)) == Err::<Seq<Triple>, DecodeError>(e),
{
}

/// The bytes of several files are seen file by file, in the order in which they stand.
pub proof fn contents_are_seen_file_by_file(files: Seq<Vec<u8>>, i: int)
    ensures
        contents_of(files).len() == files.len(),
        0 <= i < files.len() ==> contents_of(files)[i] == files[i]@,
{
}

} // verus!
