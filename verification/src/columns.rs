//! Columns of values, and the Parquet files that hold them.
//!
//! The columnar work itself is done by `arrow_array`, `arrow_schema` and `parquet`. This
//! module holds every item whose contract rests on those crates.
use std::sync::Arc;

use arrow_array::builder::ArrayBuilder;
use arrow_array::Array;
use vstd::prelude::*;

verus! {

/// The kinds of columns that state files are made of.
#[derive(Clone, Copy, Debug, PartialEq, Eq, Structural)]
pub enum ColumnKind {
    UInt64,
    TimestampMicros,
    Binary,
}

/// The declaration of one column.
#[derive(Debug)]
pub struct ColumnField {
    pub name: String,
    pub kind: ColumnKind,
    pub nullable: bool,
}

/// What a [`ColumnField`] says, over mathematical values.
///
/// The kind is `None` for a column of any type that [`ColumnKind`] has no name for.
pub struct FieldSpec {
    pub name: Seq<char>,
    pub kind: Option<ColumnKind>,
    pub nullable: bool,
}

impl View for ColumnField {
    type V = FieldSpec;

    open spec fn view(&self) -> FieldSpec {
        FieldSpec { name: self.name@, kind: Some(self.kind), nullable: self.nullable }
    }
}

/// The values of one column, slot by slot.
pub enum ColumnValues {
    UInt64(Seq<u64>),
    TimestampMicros(Seq<i64>),
    Binary(Seq<Seq<u8>>),
    Other,
}

/// The values of one column of a batch that was read.
#[derive(Debug)]
pub enum ColumnData {
    UInt64(Vec<u64>),
    TimestampMicros(Vec<i64>),
    Binary(Vec<Vec<u8>>),
    Other,
}

impl View for ColumnData {
    type V = ColumnValues;

    open spec fn view(&self) -> ColumnValues {
        match self {
            ColumnData::UInt64(v) => ColumnValues::UInt64(v@),
            ColumnData::TimestampMicros(v) => ColumnValues::TimestampMicros(v@),
            ColumnData::Binary(v) => ColumnValues::Binary(v@.map_values(|b: Vec<u8>| b@)),
            ColumnData::Other => ColumnValues::Other,
        }
    }
}

/// The number of slots in a column; none where its type has no name here.
pub open spec fn slot_count(values: ColumnValues) -> nat {
    match values {
        ColumnValues::UInt64(v) => v.len(),
        ColumnValues::TimestampMicros(v) => v.len(),
        ColumnValues::Binary(v) => v.len(),
        ColumnValues::Other => 0,
    }
}

/// Whether all columns of a batch, as far as they have a type with a name here, are of one
/// length.
pub open spec fn is_rectangular(columns: Seq<ColumnValues>) -> bool {
    forall|i: int, j: int|
        0 <= i < columns.len() && 0 <= j < columns.len() && !(columns[i] is Other) && !(columns[j]
            is Other) ==> slot_count(#[trigger] columns[i]) == slot_count(#[trigger] columns[j])
}

/// One column of a batch: what its field declares, and its values.
pub struct Column {
    pub name: Seq<char>,
    pub nullable: bool,
    pub values: ColumnValues,
}

/// One row of a state file.
pub struct DataRow {
    pub key_hash: u64,
    pub timestamp: u64,
    pub key: Seq<u8>,
    pub data: Seq<u8>,
}

/// Whether `columns` hold rows of state: routing keys, timestamps, keys and values, in that
/// order, none of them nullable.
pub open spec fn is_state_batch(columns: Seq<Column>) -> bool {
    &&& columns.len() == 4
    &&& columns[0].values is UInt64
    &&& columns[1].values is TimestampMicros
    &&& columns[2].values is Binary
    &&& columns[3].values is Binary
    &&& forall|i: int| 0 <= i < 4 ==> !(#[trigger] columns[i]).nullable
}

/// The rows that the first four columns of a batch hold. A timestamp is read as an unsigned
/// number.
pub open spec fn rows_of(columns: Seq<ColumnValues>) -> Seq<DataRow> {
    Seq::new(
        columns[0]->UInt64_0.len(),
        |i: int|
            DataRow {
                key_hash: columns[0]->UInt64_0[i],
                timestamp: columns[1]->TimestampMicros_0[i] as u64,
                key: columns[2]->Binary_0[i],
                data: columns[3]->Binary_0[i],
            },
    )
}

/// The values of `columns`, without what is declared of them.
pub open spec fn values_of(columns: Seq<Column>) -> Seq<ColumnValues> {
    columns.map_values(|c: Column| c.values)
}

/// The rows of several batches, one batch behind the other.
pub open spec fn all_rows(batches: Seq<Seq<Column>>) -> Seq<DataRow>
    decreases batches.len(),
{
    if batches.len() == 0 {
        Seq::empty()
    } else {
        all_rows(batches.drop_last()) + rows_of(values_of(batches.last()))
    }
}

/// Whether two batches have columns of the same names, in the same order.
pub open spec fn same_names(a: Seq<Column>, b: Seq<Column>) -> bool {
    a.map_values(|c: Column| c.name) == b.map_values(|c: Column| c.name)
}

/// Whether `batches` are what `columns` come back as: batches of state with the same column
/// names, which hold the same rows in the same order.
pub open spec fn reads_back(batches: Seq<Seq<Column>>, columns: Seq<Column>) -> bool {
    &&& forall|i: int|
        0 <= i < batches.len() ==> is_state_batch(#[trigger] batches[i]) && same_names(
            batches[i],
            columns,
        )
    &&& all_rows(batches) == rows_of(values_of(columns))
}

/// The number of bytes that `items` hold together.
pub open spec fn total_bytes(items: Seq<Seq<u8>>) -> nat
    decreases items.len(),
{
    if items.len() == 0 {
        0
    } else {
        total_bytes(items.drop_last()) + items.last().len()
    }
}

/// A growing column of 64-bit unsigned integers without nulls.
#[verifier::external_body]
pub struct UInt64Column {
    inner: arrow_array::builder::PrimitiveBuilder<arrow_array::types::UInt64Type>,
}

/// The values in a [`UInt64Column`], in the order in which they were appended.
pub uninterp spec fn uint64_items(column: UInt64Column) -> Seq<u64>;

/// A growing column of timestamps in microseconds without nulls.
#[verifier::external_body]
pub struct MicrosColumn {
    inner: arrow_array::builder::PrimitiveBuilder<arrow_array::types::TimestampMicrosecondType>,
}

/// The values in a [`MicrosColumn`], in the order in which they were appended.
pub uninterp spec fn micros_items(column: MicrosColumn) -> Seq<i64>;

/// A growing column of byte strings without nulls.
#[verifier::external_body]
pub struct BinaryColumn {
    inner: arrow_array::builder::BinaryBuilder,
}

/// The byte strings in a [`BinaryColumn`], in the order in which they were appended.
pub uninterp spec fn binary_items(column: BinaryColumn) -> Seq<Seq<u8>>;

/// A batch of rows that is to be written: four columns of state without nulls, under a
/// schema without annotations.
#[verifier::external_body]
pub struct Batch {
    inner: arrow_array::RecordBatch,
}

/// The columns of a [`Batch`], in the order of its schema.
pub uninterp spec fn batch_columns(batch: Batch) -> Seq<Column>;

/// A batch of rows that was read from a file.
#[verifier::external_body]
pub struct ReadBatch {
    inner: arrow_array::RecordBatch,
}

/// The columns of a [`ReadBatch`], in the order of its schema.
pub uninterp spec fn read_columns(batch: ReadBatch) -> Seq<Column>;

/// `arrow_schema::Schema`: the declarations of the columns of a batch.
#[verifier::external_type_specification]
#[verifier::external_body]
pub struct ExSchema(arrow_schema::Schema);

/// The declarations in a schema, in order.
pub uninterp spec fn schema_fields(schema: arrow_schema::Schema) -> Seq<FieldSpec>;

/// The key-value annotations of a schema and of its fields.
pub uninterp spec fn schema_annotations(schema: arrow_schema::Schema) -> Map<Seq<char>, Seq<char>>;

/// `arrow_schema::ArrowError`: why columns do not make up a batch.
#[verifier::external_type_specification]
#[verifier::external_body]
pub struct ExArrowError(arrow_schema::ArrowError);

/// `parquet::errors::ParquetError`: why a file cannot be written or read.
#[verifier::external_type_specification]
#[verifier::external_body]
pub struct ExParquetError(parquet::errors::ParquetError);

impl UInt64Column {
    /// `PrimitiveBuilder::with_capacity`: a column without values. The capacity is room set
    /// aside beforehand and no limit.
    #[verifier::external_body]
    pub(crate) fn with_capacity(capacity: usize) -> (column: UInt64Column)
        ensures
            uint64_items(column) == Seq::<u64>::empty(),
    {
        UInt64Column { inner: arrow_array::builder::PrimitiveBuilder::with_capacity(capacity) }
    }

    /// `PrimitiveBuilder::append_value`: puts `value` behind the values that are there.
    #[verifier::external_body]
    pub(crate) fn append_value(&mut self, value: u64)
        ensures
            uint64_items(*final(self)) == uint64_items(*old(self)).push(value),
    {
        self.inner.append_value(value)
    }

    /// `ArrayBuilder::is_empty`: whether no value was appended.
    #[verifier::external_body]
    pub(crate) fn is_empty(&self) -> (empty: bool)
        ensures
            empty == (uint64_items(*self).len() == 0),
    {
        self.inner.is_empty()
    }
}

impl MicrosColumn {
    /// `PrimitiveBuilder::with_capacity`: a column without values. The capacity is room set
    /// aside beforehand and no limit.
    #[verifier::external_body]
    pub(crate) fn with_capacity(capacity: usize) -> (column: MicrosColumn)
        ensures
            micros_items(column) == Seq::<i64>::empty(),
    {
        MicrosColumn { inner: arrow_array::builder::PrimitiveBuilder::with_capacity(capacity) }
    }

    /// `PrimitiveBuilder::append_value`: puts `value` behind the values that are there.
    #[verifier::external_body]
    pub(crate) fn append_value(&mut self, value: i64)
        ensures
            micros_items(*final(self)) == micros_items(*old(self)).push(value),
    {
        self.inner.append_value(value)
    }
}

impl BinaryColumn {
    /// `BinaryBuilder::default`: a column without values.
    #[verifier::external_body]
    pub(crate) fn new() -> (column: BinaryColumn)
        ensures
            binary_items(column) == Seq::<Seq<u8>>::empty(),
    {
        BinaryColumn { inner: arrow_array::builder::BinaryBuilder::default() }
    }

    /// `BinaryBuilder::append_value`: puts the bytes of `value` behind the byte strings that
    /// are there. The call panics where all byte strings together would exceed `i32::MAX`
    /// bytes, so that is left out.
    #[verifier::external_body]
    pub(crate) fn append_value(&mut self, value: Vec<u8>)
        requires
            total_bytes(binary_items(*old(self))) + value@.len() <= i32::MAX,
        ensures
            binary_items(*final(self)) == binary_items(*old(self)).push(value@),
    {
        self.inner.append_value(value)
    }

    /// `BinaryBuilder::values_slice`: its length is the number of bytes that were appended.
    #[verifier::external_body]
    pub(crate) fn byte_len(&self) -> (len: usize)
        ensures
            len == total_bytes(binary_items(*self)),
    {
        self.inner.values_slice().len()
    }
}

/// `Field::new` and `Schema::new`: a schema with the given declarations, in order, and
/// without annotations.
#[verifier::external_body]
pub(crate) fn new_schema(fields: Vec<ColumnField>) -> (schema: arrow_schema::Schema)
    ensures
        schema_annotations(schema).is_empty(),
        schema_fields(schema) == fields@.map_values(|f: ColumnField| f@),
{
    let convert = |f: ColumnField| {
        let data_type = match f.kind {
            ColumnKind::UInt64 => arrow_schema::DataType::UInt64,
            ColumnKind::TimestampMicros =>
                arrow_schema::DataType::Timestamp(arrow_schema::TimeUnit::Microsecond, None),
            ColumnKind::Binary => arrow_schema::DataType::Binary,
        };
        arrow_schema::Field::new(f.name, data_type, f.nullable)
    };
    arrow_schema::Schema::new(fields.into_iter().map(convert).collect::<Vec<_>>())
}

/// The column that a field and the values for it make.
pub open spec fn column_of(field: FieldSpec, values: ColumnValues) -> Column {
    Column { name: field.name, nullable: field.nullable, values }
}

/// Whether `fields` declare the four columns of a state file.
pub open spec fn declares_state(fields: Seq<FieldSpec>) -> bool {
    &&& fields.len() == 4
    &&& fields[0].kind == Some(ColumnKind::UInt64)
    &&& fields[1].kind == Some(ColumnKind::TimestampMicros)
    &&& fields[2].kind == Some(ColumnKind::Binary)
    &&& fields[3].kind == Some(ColumnKind::Binary)
}

/// Whether the four columns have as many values each.
pub open spec fn same_lengths(
    key_hashes: UInt64Column,
    start_times: MicrosColumn,
    keys: BinaryColumn,
    data: BinaryColumn,
) -> bool {
    &&& uint64_items(key_hashes).len() == micros_items(start_times).len()
    &&& uint64_items(key_hashes).len() == binary_items(keys).len()
    &&& uint64_items(key_hashes).len() == binary_items(data).len()
}

/// `finish` on each of the four builders, and `RecordBatch::try_new` on the arrays that come
/// of it: a batch of the four columns under the declarations of `schema`. It is refused
/// exactly where the schema declares other columns than these, or where the columns differ
/// in length.
#[verifier::external_body]
pub(crate) fn record_batch(
    schema: Arc<arrow_schema::Schema>,
    mut key_hashes: UInt64Column,
    mut start_times: MicrosColumn,
    mut keys: BinaryColumn,
    mut data: BinaryColumn,
) -> (batch: Result<Batch, arrow_schema::ArrowError>)
    requires
        schema_annotations(*schema).is_empty(),
    ensures
        match batch {
            Ok(b) => {
                &&& declares_state(schema_fields(*schema))
                &&& same_lengths(key_hashes, start_times, keys, data)
                &&& batch_columns(b) == seq![
                    column_of(
                        schema_fields(*schema)[0],
                        ColumnValues::UInt64(uint64_items(key_hashes)),
                    ),
                    column_of(
                        schema_fields(*schema)[1],
                        ColumnValues::TimestampMicros(micros_items(start_times)),
                    ),
                    column_of(schema_fields(*schema)[2], ColumnValues::Binary(binary_items(keys))),
                    column_of(schema_fields(*schema)[3], ColumnValues::Binary(binary_items(data))),
                ]
            },
            Err(_) => !declares_state(schema_fields(*schema)) || !same_lengths(
                key_hashes,
                start_times,
                keys,
                data,
            ),
        },
{
    let columns: Vec<arrow_array::ArrayRef> = vec![
        Arc::new(key_hashes.inner.finish()),
        Arc::new(start_times.inner.finish()),
        Arc::new(keys.inner.finish()),
        Arc::new(data.inner.finish()),
    ];
    match arrow_array::RecordBatch::try_new(schema, columns) {
        Ok(inner) => Ok(Batch { inner }),
        Err(error) => Err(error),
    }
}

/// The batches that a Parquet file holds, in file order; `None` where reading the bytes may end
/// otherwise than with batches: with an error, with a panic, or with an overflow of the stack.
pub uninterp spec fn parquet_batches(bytes: Seq<u8>) -> Option<Seq<Seq<Column>>>;

/// Whether `bytes` are a Parquet file that can be read to its end.
pub open spec fn is_readable(bytes: Seq<u8>) -> bool {
    parquet_batches(bytes) is Some
}

/// Whether `bytes` are a Parquet file from which the rows of `columns` come back.
pub open spec fn file_holds(bytes: Seq<u8>, columns: Seq<Column>) -> bool {
    match parquet_batches(bytes) {
        Some(batches) => reads_back(batches, columns),
        None => false,
    }
}

/// The Parquet file that is made of a batch with the given columns; `None` where none can be
/// made.
pub uninterp spec fn parquet_file(columns: Seq<Column>) -> Option<Seq<u8>>;

/// `ArrowWriter::try_new`, `write`, `flush` and `into_inner`, with Zstandard compression and
/// without column statistics: the bytes of a Parquet file that holds `batch`, which depend on
/// the batch alone. A file of rows of state reads back as those rows, under the same column
/// names. For which batches the call fails is left unsaid.
#[verifier::external_body]
pub(crate) fn encode_batch(batch: &Batch) -> (bytes: Result<Vec<u8>, parquet::errors::ParquetError>)
    ensures
        match bytes {
            Ok(b) => {
                &&& parquet_file(batch_columns(*batch)) == Some(b@)
                &&& is_state_batch(batch_columns(*batch)) ==> file_holds(
                    b@,
                    batch_columns(*batch),
                )
            },
            Err(_) => parquet_file(batch_columns(*batch)) is None,
        },
{
    let props = parquet::file::properties::WriterProperties::builder()
        .set_compression(parquet::basic::Compression::ZSTD(parquet::basic::ZstdLevel::default()))
        .set_statistics_enabled(parquet::file::properties::EnabledStatistics::None)
        .build();
    let schema = batch.inner.schema();
    let mut writer = parquet::arrow::ArrowWriter::try_new(Vec::new(), schema, Some(props))?;
    writer.write(&batch.inner)?;
    writer.flush()?;
    writer.into_inner()
}

/// `ParquetRecordBatchReaderBuilder::try_new` and `build`, and the reader walked to its end:
/// all batches of a Parquet file. On bytes that are no such file the calls return an error or
/// panic, so these are left out.
#[verifier::external_body]
pub(crate) fn read_batches(bytes: &Vec<u8>) -> (batches: Result<
    Vec<ReadBatch>,
    parquet::errors::ParquetError,
>)
    requires
        is_readable(bytes@),
    ensures
        batches is Ok,
        parquet_batches(bytes@) == Some(
            batches->Ok_0@.map_values(|x: ReadBatch| read_columns(x)),
        ),
{
    let input = bytes::Bytes::copy_from_slice(bytes);
    let reader =
        parquet::arrow::arrow_reader::ParquetRecordBatchReaderBuilder::try_new(input)?.build()?;
    let batches = reader.collect::<Result<Vec<_>, arrow_schema::ArrowError>>()?;
    Ok(batches.into_iter().map(|inner| ReadBatch { inner }).collect())
}

/// `RecordBatch::columns`, and a downcast of each column to the array types of state files:
/// the values of the batch, column by column. The columns of a batch are of one length.
#[verifier::external_body]
pub(crate) fn column_data(batch: &ReadBatch) -> (columns: Vec<ColumnData>)
    ensures
        columns@.map_values(|c: ColumnData| c@) == values_of(read_columns(*batch)),
        is_rectangular(columns@.map_values(|c: ColumnData| c@)),
{
    let convert = |column: &arrow_array::ArrayRef| {
        let any = column.as_any();
        if let Some(a) = any.downcast_ref::<arrow_array::UInt64Array>() {
            ColumnData::UInt64(a.values().to_vec())
        } else if let Some(a) = any.downcast_ref::<arrow_array::TimestampMicrosecondArray>() {
            ColumnData::TimestampMicros(a.values().to_vec())
        } else if let Some(a) = any.downcast_ref::<arrow_array::BinaryArray>() {
            ColumnData::Binary((0..a.len()).map(|row| a.value(row).to_vec()).collect())
        } else {
            ColumnData::Other
        }
    };
    batch.inner.columns().iter().map(convert).collect()
}

/// The values of a column are seen as they are.
pub proof fn values_are_seen_as_they_are(
    key_hashes: Vec<u64>,
    times: Vec<i64>,
    items: Vec<Vec<u8>>,
    i: int,
)
    ensures
        ColumnData::UInt64(key_hashes)@ == ColumnValues::UInt64(key_hashes@),
        ColumnData::TimestampMicros(times)@ == ColumnValues::TimestampMicros(times@),
        ColumnData::Binary(items)@ matches ColumnValues::Binary(v) && v.len() == items@.len() && (0
            <= i < items@.len() ==> v[i] == items@[i]@),
        ColumnData::Other@ is Other,
{
}

} // verus!
