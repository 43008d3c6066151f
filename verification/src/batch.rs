//! Collecting rows of state, and turning them into the batch of a state file.
use std::sync::Arc;

use vstd::prelude::*;
use vstd::string::StringExecFns;

use crate::columns;
use crate::columns::{Batch, BinaryColumn, ColumnField, ColumnKind, MicrosColumn, UInt64Column};

verus! {

/// What is known of the rows of a state file without reading it.
#[derive(Clone, Copy, Debug, PartialEq, Eq, Structural)]
pub struct ParquetStats {
    pub max_timestamp: u64,
    pub min_routing_key: u64,
    pub max_routing_key: u64,
}

/// The statistics of no rows at all.
pub open spec fn empty_stats() -> ParquetStats {
    ParquetStats { max_timestamp: 0, min_routing_key: u64::MAX, max_routing_key: 0 }
}

/// The latest timestamp, the least routing key and the greatest routing key of `rows`.
pub open spec fn stats_of(rows: Seq<columns::DataRow>) -> ParquetStats
    decreases rows.len(),
{
    if rows.len() == 0 {
        empty_stats()
    } else {
        let before = stats_of(rows.drop_last());
        let row = rows.last();
        ParquetStats {
            max_timestamp: if row.timestamp > before.max_timestamp {
                row.timestamp
            } else {
                before.max_timestamp
            },
            min_routing_key: if row.key_hash < before.min_routing_key {
                row.key_hash
            } else {
                before.min_routing_key
            },
            max_routing_key: if row.key_hash > before.max_routing_key {
                row.key_hash
            } else {
                before.max_routing_key
            },
        }
    }
}

impl Default for ParquetStats {
    fn default() -> (stats: Self)
        ensures
            stats == empty_stats(),
    {
        ParquetStats { max_timestamp: 0, min_routing_key: u64::MAX, max_routing_key: u64::MIN }
    }
}

/// The columns of a state file, as far as its schema declares them.
pub open spec fn state_fields() -> Seq<columns::FieldSpec> {
    seq![
        columns::FieldSpec {
            name: "key_hash"@,
            kind: Some(ColumnKind::UInt64),
            nullable: false,
        },
        columns::FieldSpec {
            name: "start_time"@,
            kind: Some(ColumnKind::TimestampMicros),
            nullable: false,
        },
        columns::FieldSpec {
            name: "key_bytes"@,
            kind: Some(ColumnKind::Binary),
            nullable: false,
        },
        columns::FieldSpec {
            name: "aggregate_bytes"@,
            kind: Some(ColumnKind::Binary),
            nullable: false,
        },
    ]
}

/// The columns of the state file that holds `rows`.
pub open spec fn state_columns(rows: Seq<columns::DataRow>) -> Seq<columns::Column> {
    seq![
        columns::column_of(
            state_fields()[0],
            columns::ColumnValues::UInt64(rows.map_values(|r: columns::DataRow| r.key_hash)),
        ),
        columns::column_of(
            state_fields()[1],
            columns::ColumnValues::TimestampMicros(
                rows.map_values(|r: columns::DataRow| r.timestamp as i64),
            ),
        ),
        columns::column_of(
            state_fields()[2],
            columns::ColumnValues::Binary(keys_of(rows)),
        ),
        columns::column_of(
            state_fields()[3],
            columns::ColumnValues::Binary(data_of(rows)),
        ),
    ]
}

proof fn lemma_unsigned_micros(t: u64)
    ensures
        (t as i64) as u64 == t,
{
    assert((t as i64) as u64 == t) by (bit_vector);
}

proof fn lemma_signed_micros(t: i64)
    ensures
        (t as u64) as i64 == t,
{
    assert((t as u64) as i64 == t) by (bit_vector);
}

/// The columns of a state file give back the rows that they were made of.
pub proof fn columns_keep_rows(rows: Seq<columns::DataRow>)
    ensures
        columns::is_state_batch(state_columns(rows)),
        columns::rows_of(columns::values_of(state_columns(rows))) == rows,
{
    let values = columns::values_of(state_columns(rows));
    assert forall|i: int| 0 <= i < rows.len() implies columns::rows_of(values)[i] == rows[i] by {
        lemma_unsigned_micros(rows[i].timestamp);
    }
    assert(columns::rows_of(values) =~= rows);
}

/// The statistics bound every row.
pub proof fn statistics_bound_rows(rows: Seq<columns::DataRow>, i: int)
    requires
        0 <= i < rows.len(),
    ensures
        rows[i].timestamp <= stats_of(rows).max_timestamp,
        stats_of(rows).min_routing_key <= rows[i].key_hash <= stats_of(rows).max_routing_key,
    decreases rows.len(),
{
    if i < rows.len() - 1 {
        statistics_bound_rows(rows.drop_last(), i);
    }
}

/// The bounds are no wider than they have to be: some row has the latest timestamp, some row
/// the least routing key, and some row the greatest.
pub proof fn statistics_are_tight(rows: Seq<columns::DataRow>)
    requires
        rows.len() > 0,
    ensures
        exists|i: int|
            0 <= i < rows.len() && (#[trigger] rows[i]).timestamp == stats_of(rows).max_timestamp,
        exists|i: int|
            0 <= i < rows.len() && (#[trigger] rows[i]).key_hash == stats_of(rows).min_routing_key,
        exists|i: int|
            0 <= i < rows.len() && (#[trigger] rows[i]).key_hash == stats_of(rows).max_routing_key,
    decreases rows.len(),
{
    let before = rows.drop_last();
    let last = rows.len() - 1;
    assert(rows[last] == rows.last());
    if before.len() > 0 {
        statistics_are_tight(before);
        let t = choose|i: int|
            0 <= i < before.len() && (#[trigger] before[i]).timestamp == stats_of(
                before,
            ).max_timestamp;
        assert(rows[t] == before[t]);
        let low = choose|i: int|
            0 <= i < before.len() && (#[trigger] before[i]).key_hash == stats_of(
                before,
            ).min_routing_key;
        assert(rows[low] == before[low]);
        let high = choose|i: int|
            0 <= i < before.len() && (#[trigger] before[i]).key_hash == stats_of(
                before,
            ).max_routing_key;
        assert(rows[high] == before[high]);
    } else {
        assert(stats_of(before) == empty_stats());
    }
}

/// The keys of `rows`.
pub open spec fn keys_of(rows: Seq<columns::DataRow>) -> Seq<Seq<u8>> {
    rows.map_values(|r: columns::DataRow| r.key)
}

/// The values of `rows`.
pub open spec fn data_of(rows: Seq<columns::DataRow>) -> Seq<Seq<u8>> {
    rows.map_values(|r: columns::DataRow| r.data)
}

/// Whether a row with this key and value still fits behind `rows`: all keys together, and all
/// values together, take at most `i32::MAX` bytes.
pub open spec fn has_room(rows: Seq<columns::DataRow>, key: Seq<u8>, data: Seq<u8>) -> bool {
    &&& columns::total_bytes(keys_of(rows)) + key.len() <= i32::MAX
    &&& columns::total_bytes(data_of(rows)) + data.len() <= i32::MAX
}

/// The rows of one table that were written since the last checkpoint.
pub struct RecordBatchBuilder {
    key_hash_builder: UInt64Column,
    start_time_array: MicrosColumn,
    key_bytes: BinaryColumn,
    data_bytes: BinaryColumn,
    parquet_stats: ParquetStats,
}

impl RecordBatchBuilder {
    /// The rows in the builder, in the order in which they were inserted.
    pub closed spec fn rows(self) -> Seq<columns::DataRow> {
        Seq::new(
            columns::uint64_items(self.key_hash_builder).len(),
            |i: int|
                columns::DataRow {
                    key_hash: columns::uint64_items(self.key_hash_builder)[i],
                    timestamp: columns::micros_items(self.start_time_array)[i] as u64,
                    key: columns::binary_items(self.key_bytes)[i],
                    data: columns::binary_items(self.data_bytes)[i],
                },
        )
    }

    /// The columns are of one length and the statistics are those of the rows.
    pub closed spec fn wf(self) -> bool {
        &&& columns::same_lengths(
            self.key_hash_builder,
            self.start_time_array,
            self.key_bytes,
            self.data_bytes,
        )
        &&& self.parquet_stats == stats_of(self.rows())
    }

    /// Whether a row with this key and value still fits.
    pub fn fits(&self, key: &Vec<u8>, data: &Vec<u8>) -> (fits: bool)
        requires
            self.wf(),
        ensures
            fits == has_room(self.rows(), key@, data@),
    {
        proof {
            self.lemma_bytes();
        }
        let limit: usize = i32::MAX as usize;
        let keys: usize = self.key_bytes.byte_len();
        let values: usize = self.data_bytes.byte_len();
        keys <= limit && key.len() <= limit - keys && values <= limit && data.len() <= limit
            - values
    }

    proof fn lemma_bytes(&self)
        requires
            self.wf(),
        ensures
            columns::binary_items(self.key_bytes) == keys_of(self.rows()),
            columns::binary_items(self.data_bytes) == data_of(self.rows()),
    {
        assert(columns::binary_items(self.key_bytes) =~= keys_of(self.rows()));
        assert(columns::binary_items(self.data_bytes) =~= data_of(self.rows()));
    }

    /// Adds a row behind the rows that are there, and takes it into the statistics.
    pub fn insert(&mut self, key_hash: u64, timestamp: u64, key: Vec<u8>, data: Vec<u8>)
        requires
            old(self).wf(),
            has_room(old(self).rows(), key@, data@),
        ensures
            final(self).wf(),
            final(self).rows() == old(self).rows().push(
                columns::DataRow { key_hash, timestamp, key: key@, data: data@ },
            ),
    {
        proof {
            self.lemma_bytes();
        }
        if key_hash < self.parquet_stats.min_routing_key {
            self.parquet_stats.min_routing_key = key_hash;
        }
        if key_hash > self.parquet_stats.max_routing_key {
            self.parquet_stats.max_routing_key = key_hash;
        }
        self.key_hash_builder.append_value(key_hash);
        self.start_time_array.append_value(timestamp as i64);
        self.key_bytes.append_value(key);
        self.data_bytes.append_value(data);
        if timestamp > self.parquet_stats.max_timestamp {
            self.parquet_stats.max_timestamp = timestamp;
        }
        proof {
            let row = columns::DataRow { key_hash, timestamp, key: key@, data: data@ };
            lemma_unsigned_micros(timestamp);
            assert(self.rows() =~= old(self).rows().push(row));
            assert(self.rows().drop_last() =~= old(self).rows());
        }
    }

    /// The schema of state files.
    pub fn schema(&self) -> (schema: Arc<arrow_schema::Schema>)
        ensures
            columns::schema_fields(*schema) == state_fields(),
            columns::schema_annotations(*schema).is_empty(),
    {
        let mut fields: Vec<ColumnField> = Vec::new();
        fields.push(
            ColumnField {
                name: String::from_str("key_hash"),
                kind: ColumnKind::UInt64,
                nullable: false,
            },
        );
        fields.push(
            ColumnField {
                name: String::from_str("start_time"),
                kind: ColumnKind::TimestampMicros,
                nullable: false,
            },
        );
        fields.push(
            ColumnField {
                name: String::from_str("key_bytes"),
                kind: ColumnKind::Binary,
                nullable: false,
            },
        );
        fields.push(
            ColumnField {
                name: String::from_str("aggregate_bytes"),
                kind: ColumnKind::Binary,
                nullable: false,
            },
        );
        assert(fields@.map_values(|f: ColumnField| f@) =~= state_fields());
        Arc::new(columns::new_schema(fields))
    }

    /// The batch of all rows, with their statistics; nothing where there are no rows.
    pub fn flush(self) -> (flushed: Option<(Batch, ParquetStats)>)
        requires
            self.wf(),
        ensures
            match flushed {
                Some((batch, stats)) => {
                    &&& self.rows().len() > 0
                    &&& columns::batch_columns(batch) == state_columns(self.rows())
                    &&& stats == stats_of(self.rows())
                },
                None => self.rows().len() == 0,
            },
    {
        if self.key_hash_builder.is_empty() {
            return None;
        }
        let schema: Arc<arrow_schema::Schema> = self.schema();
        let stats: ParquetStats = self.parquet_stats;
        match columns::record_batch(
            schema,
            self.key_hash_builder,
            self.start_time_array,
            self.key_bytes,
            self.data_bytes,
        ) {
            Ok(batch) => {
                proof {
                    let rows = self.rows();
                    let times = columns::micros_items(self.start_time_array);
                    assert forall|i: int| 0 <= i < rows.len() implies rows[i].timestamp as i64
                        == times[i] by {
                        lemma_signed_micros(times[i]);
                    }
                    assert(rows.map_values(|r: columns::DataRow| r.key_hash)
                        =~= columns::uint64_items(self.key_hash_builder));
                    assert(rows.map_values(|r: columns::DataRow| r.timestamp as i64) =~= times);
                    self.lemma_bytes();
                    assert(columns::batch_columns(batch) =~= state_columns(rows));
                }
                Some((batch, stats))
            },
            Err(_) => {
                assert(false);
                None
            },
        }
    }
}

impl Default for RecordBatchBuilder {
    fn default() -> (builder: Self)
        ensures
            builder.wf(),
            builder.rows() == Seq::<columns::DataRow>::empty(),
    {
        let builder = RecordBatchBuilder {
            key_hash_builder: UInt64Column::with_capacity(1024),
            start_time_array: MicrosColumn::with_capacity(1024),
            key_bytes: BinaryColumn::new(),
            data_bytes: BinaryColumn::new(),
            parquet_stats: ParquetStats::default(),
        };
        assert(builder.rows() =~= Seq::<columns::DataRow>::empty());
        builder
    }
}

/// A state file has four columns, none of them nullable, and row by row these hold the routing
/// key, the timestamp, the key and the value.
pub proof fn columns_are_laid_out_row_by_row(rows: Seq<columns::DataRow>, i: int)
    requires
        0 <= i < rows.len(),
    ensures
        ({
            let c = state_columns(rows);
            &&& c.len() == 4
            &&& c[0].name == "key_hash"@ && !c[0].nullable
            &&& c[1].name == "start_time"@ && !c[1].nullable
            &&& c[2].name == "key_bytes"@ && !c[2].nullable
            &&& c[3].name == "aggregate_bytes"@ && !c[3].nullable
            &&& c[0].values matches columns::ColumnValues::UInt64(v) && v.len() == rows.len()
                && v[i] == rows[i].key_hash
            &&& c[1].values matches columns::ColumnValues::TimestampMicros(v) && v.len()
                == rows.len() && v[i] as u64 == rows[i].timestamp
            &&& c[2].values matches columns::ColumnValues::Binary(v) && v.len() == rows.len()
                && v[i] == rows[i].key
            &&& c[3].values matches columns::ColumnValues::Binary(v) && v.len() == rows.len()
                && v[i] == rows[i].data
        }),
{
    lemma_unsigned_micros(rows[i].timestamp);
}

/// The fields of the schema of state files declare the columns that state files have.
pub proof fn the_schema_declares_the_columns(rows: Seq<columns::DataRow>, i: int)
    requires
        0 <= i < 4,
    ensures
        state_fields().len() == 4,
        state_fields()[i].name == state_columns(rows)[i].name,
        state_fields()[i].nullable == state_columns(rows)[i].nullable,
        state_fields()[i].kind == match state_columns(rows)[i].values {
            columns::ColumnValues::UInt64(_) => Some(ColumnKind::UInt64),
            columns::ColumnValues::TimestampMicros(_) => Some(ColumnKind::TimestampMicros),
            columns::ColumnValues::Binary(_) => Some(ColumnKind::Binary),
            columns::ColumnValues::Other => None,
        },
{
}

/// The statistics of no rows admit none: their bounds contradict each other.
pub proof fn statistics_of_nothing_admit_nothing()
    ensures
        stats_of(Seq::empty()) == (ParquetStats {
            max_timestamp: 0,
            min_routing_key: u64::MAX,
            max_routing_key: 0,
        }),
{
}

/// Rows fit exactly as long as their keys together, and their values together, take no more
/// bytes than a signed 32-bit number counts; each row takes as many as its key and value are
/// long.
pub proof fn rows_fit_by_their_bytes(
    rows: Seq<columns::DataRow>,
    row: columns::DataRow,
    key: Seq<u8>,
    data: Seq<u8>,
)
    ensures
        has_room(Seq::empty(), key, data) <==> key.len() <= 0x7fff_ffff && data.len()
            <= 0x7fff_ffff,
        has_room(rows.push(row), key, data) <==> columns::total_bytes(keys_of(rows))
            + row.key.len() + key.len() <= 0x7fff_ffff && columns::total_bytes(data_of(rows))
            + row.data.len() + data.len() <= 0x7fff_ffff,
        columns::total_bytes(keys_of(rows.push(row))) == columns::total_bytes(keys_of(rows))
            + row.key.len(),
        columns::total_bytes(data_of(rows.push(row))) == columns::total_bytes(data_of(rows))
            + row.data.len(),
        columns::total_bytes(keys_of(Seq::empty())) == 0,
        columns::total_bytes(data_of(Seq::empty())) == 0,
{
    assert(keys_of(rows.push(row)) =~= keys_of(rows).push(row.key));
    assert(data_of(rows.push(row)) =~= data_of(rows).push(row.data));
    assert(keys_of(rows).push(row.key).drop_last() =~= keys_of(rows));
    assert(data_of(rows).push(row.data).drop_last() =~= data_of(rows));
    assert(keys_of(Seq::empty()) =~= Seq::<Seq<u8>>::empty());
    assert(data_of(Seq::empty()) =~= Seq::<Seq<u8>>::empty());
}

} // verus!
