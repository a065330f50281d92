//! The columns of result tables.
use crate::text::optional_text;
use vstd::prelude::*;

verus! {

/// What a column holds.
#[derive(Debug, Clone, Copy, PartialEq, Eq, Structural)]
pub enum ColumnKind {
    Varchar,
    Boolean,
    UInteger,
    UBigint,
    Bigint,
    Double,
    Timestamp,
}

/// A column. One with numbers may carry their unit.
#[derive(Debug, PartialEq, Eq)]
pub struct Column {
    pub name: String,
    pub kind: ColumnKind,
    pub unit_tag: Option<String>,
}

/// What a column is.
#[verifier::ext_equal]
pub struct ColumnModel {
    pub name: Seq<char>,
    pub kind: ColumnKind,
    pub unit_tag: Option<Seq<char>>,
}

impl View for Column {
    type V = ColumnModel;

    open spec fn view(&self) -> ColumnModel {
        ColumnModel { name: self.name@, kind: self.kind, unit_tag: optional_text(self.unit_tag) }
    }
}

/// What columns are.
pub open spec fn columns_of(columns: Seq<Column>) -> Seq<ColumnModel> {
    Seq::new(columns.len(), |i: int| columns[i]@)
}

/// A column without a unit.
pub open spec fn plain(name: Seq<char>, kind: ColumnKind) -> ColumnModel {
    ColumnModel { name, kind, unit_tag: None }
}

/// Appends a column without a unit.
pub fn declare(columns: &mut Vec<Column>, name: &str, kind: ColumnKind)
    ensures
        columns_of(final(columns)@) == columns_of(old(columns)@).push(plain(name@, kind)),
{
    let ghost before = columns@;
    let column = Column { name: name.to_owned(), kind, unit_tag: None };
    columns.push(column);
    assert(columns_of(columns@) =~= columns_of(before).push(column@));
}

/// The columns of a table of samples.
pub fn samples_columns() -> (columns: Vec<Column>)
    ensures
        columns_of(columns@) == seq![
            plain("file"@, ColumnKind::Varchar),
            plain("format"@, ColumnKind::Varchar),
            plain("channel_id"@, ColumnKind::UInteger),
            plain("channel"@, ColumnKind::Varchar),
            plain("unit"@, ColumnKind::Varchar),
            plain("unit_source"@, ColumnKind::Varchar),
            plain("frequency_hz"@, ColumnKind::Double),
            plain("sample_index"@, ColumnKind::UBigint),
            plain("time_ns"@, ColumnKind::Bigint),
            plain("value"@, ColumnKind::Double),
        ],
{
    let mut columns: Vec<Column> = Vec::new();
    assert(columns_of(columns@) =~= Seq::empty());
    declare(&mut columns, "file", ColumnKind::Varchar);
    declare(&mut columns, "format", ColumnKind::Varchar);
    declare(&mut columns, "channel_id", ColumnKind::UInteger);
    declare(&mut columns, "channel", ColumnKind::Varchar);
    declare(&mut columns, "unit", ColumnKind::Varchar);
    declare(&mut columns, "unit_source", ColumnKind::Varchar);
    declare(&mut columns, "frequency_hz", ColumnKind::Double);
    declare(&mut columns, "sample_index", ColumnKind::UBigint);
    declare(&mut columns, "time_ns", ColumnKind::Bigint);
    declare(&mut columns, "value", ColumnKind::Double);
    columns
}

/// The columns of a table of the samples of PDS recordings.
pub fn pds_samples_columns() -> (columns: Vec<Column>)
    ensures
        columns_of(columns@) == seq![
            plain("file"@, ColumnKind::Varchar),
            plain("channel_id"@, ColumnKind::UInteger),
            plain("channel"@, ColumnKind::Varchar),
            plain("unit"@, ColumnKind::Varchar),
            plain("frequency_hz"@, ColumnKind::Double),
            plain("sample_index"@, ColumnKind::UBigint),
            plain("time_ns"@, ColumnKind::Bigint),
            plain("value"@, ColumnKind::Double),
        ],
{
    let mut columns: Vec<Column> = Vec::new();
    assert(columns_of(columns@) =~= Seq::empty());
    declare(&mut columns, "file", ColumnKind::Varchar);
    declare(&mut columns, "channel_id", ColumnKind::UInteger);
    declare(&mut columns, "channel", ColumnKind::Varchar);
    declare(&mut columns, "unit", ColumnKind::Varchar);
    declare(&mut columns, "frequency_hz", ColumnKind::Double);
    declare(&mut columns, "sample_index", ColumnKind::UBigint);
    declare(&mut columns, "time_ns", ColumnKind::Bigint);
    declare(&mut columns, "value", ColumnKind::Double);
    columns
}

/// The columns of a table of channels.
pub fn channels_columns() -> (columns: Vec<Column>)
    ensures
        columns_of(columns@) == seq![
            plain("file"@, ColumnKind::Varchar),
            plain("format"@, ColumnKind::Varchar),
            plain("channel_id"@, ColumnKind::UInteger),
            plain("name"@, ColumnKind::Varchar),
            plain("unit"@, ColumnKind::Varchar),
            plain("unit_source"@, ColumnKind::Varchar),
            plain("canonical_unit"@, ColumnKind::Varchar),
            plain("dimension"@, ColumnKind::Varchar),
            plain("type_code"@, ColumnKind::UInteger),
            plain("data_type"@, ColumnKind::Varchar),
            plain("frequency_hz"@, ColumnKind::Double),
            plain("sample_period_ns"@, ColumnKind::UBigint),
            plain("sample_count"@, ColumnKind::UBigint),
            plain("chunk_count"@, ColumnKind::UBigint),
            plain("duration_ns"@, ColumnKind::UBigint),
        ],
{
    let mut columns: Vec<Column> = Vec::new();
    assert(columns_of(columns@) =~= Seq::empty());
    declare(&mut columns, "file", ColumnKind::Varchar);
    declare(&mut columns, "format", ColumnKind::Varchar);
    declare(&mut columns, "channel_id", ColumnKind::UInteger);
    declare(&mut columns, "name", ColumnKind::Varchar);
    declare(&mut columns, "unit", ColumnKind::Varchar);
    declare(&mut columns, "unit_source", ColumnKind::Varchar);
    declare(&mut columns, "canonical_unit", ColumnKind::Varchar);
    declare(&mut columns, "dimension", ColumnKind::Varchar);
    declare(&mut columns, "type_code", ColumnKind::UInteger);
    declare(&mut columns, "data_type", ColumnKind::Varchar);
    declare(&mut columns, "frequency_hz", ColumnKind::Double);
    declare(&mut columns, "sample_period_ns", ColumnKind::UBigint);
    declare(&mut columns, "sample_count", ColumnKind::UBigint);
    declare(&mut columns, "chunk_count", ColumnKind::UBigint);
    declare(&mut columns, "duration_ns", ColumnKind::UBigint);
    columns
}

/// The columns of a table of the channels of PDS recordings.
pub fn pds_channels_columns() -> (columns: Vec<Column>)
    ensures
        columns_of(columns@) == seq![
            plain("file"@, ColumnKind::Varchar),
            plain("channel_id"@, ColumnKind::UInteger),
            plain("name"@, ColumnKind::Varchar),
            plain("unit"@, ColumnKind::Varchar),
            plain("type_code"@, ColumnKind::UInteger),
            plain("data_type"@, ColumnKind::Varchar),
            plain("frequency_hz"@, ColumnKind::Double),
            plain("sample_period_ns"@, ColumnKind::UBigint),
            plain("sample_count"@, ColumnKind::UBigint),
            plain("chunk_count"@, ColumnKind::UBigint),
            plain("duration_ns"@, ColumnKind::UBigint),
        ],
{
    let mut columns: Vec<Column> = Vec::new();
    assert(columns_of(columns@) =~= Seq::empty());
    declare(&mut columns, "file", ColumnKind::Varchar);
    declare(&mut columns, "channel_id", ColumnKind::UInteger);
    declare(&mut columns, "name", ColumnKind::Varchar);
    declare(&mut columns, "unit", ColumnKind::Varchar);
    declare(&mut columns, "type_code", ColumnKind::UInteger);
    declare(&mut columns, "data_type", ColumnKind::Varchar);
    declare(&mut columns, "frequency_hz", ColumnKind::Double);
    declare(&mut columns, "sample_period_ns", ColumnKind::UBigint);
    declare(&mut columns, "sample_count", ColumnKind::UBigint);
    declare(&mut columns, "chunk_count", ColumnKind::UBigint);
    declare(&mut columns, "duration_ns", ColumnKind::UBigint);
    columns
}

/// The columns of a table of files.
pub fn file_metadata_columns() -> (columns: Vec<Column>)
    ensures
        columns_of(columns@) == seq![
            plain("file"@, ColumnKind::Varchar),
            plain("format"@, ColumnKind::Varchar),
            plain("session_key"@, ColumnKind::Varchar),
            plain("absolute_start_ns"@, ColumnKind::UBigint),
            plain("absolute_end_ns"@, ColumnKind::UBigint),
            plain("duration_ns"@, ColumnKind::UBigint),
            plain("channel_count"@, ColumnKind::UBigint),
            plain("sampled_channel_count"@, ColumnKind::UBigint),
            plain("sample_count"@, ColumnKind::UBigint),
            plain("schema_hash"@, ColumnKind::UBigint),
            plain("driver_ids"@, ColumnKind::Varchar),
            plain("lap_count"@, ColumnKind::UBigint),
            plain("fastest_lap_number"@, ColumnKind::Bigint),
            plain("fastest_lap_time_ns"@, ColumnKind::UBigint),
            plain("video_frame_count"@, ColumnKind::UBigint),
            plain("driver"@, ColumnKind::Varchar),
            plain("vehicle"@, ColumnKind::Varchar),
            plain("venue"@, ColumnKind::Varchar),
            plain("event"@, ColumnKind::Varchar),
            plain("session"@, ColumnKind::Varchar),
            plain("date"@, ColumnKind::Varchar),
            plain("time"@, ColumnKind::Varchar),
            plain("absolute_clock"@, ColumnKind::Varchar),
        ],
{
    let mut columns: Vec<Column> = Vec::new();
    assert(columns_of(columns@) =~= Seq::empty());
    declare(&mut columns, "file", ColumnKind::Varchar);
    declare(&mut columns, "format", ColumnKind::Varchar);
    declare(&mut columns, "session_key", ColumnKind::Varchar);
    declare(&mut columns, "absolute_start_ns", ColumnKind::UBigint);
    declare(&mut columns, "absolute_end_ns", ColumnKind::UBigint);
    declare(&mut columns, "duration_ns", ColumnKind::UBigint);
    declare(&mut columns, "channel_count", ColumnKind::UBigint);
    declare(&mut columns, "sampled_channel_count", ColumnKind::UBigint);
    declare(&mut columns, "sample_count", ColumnKind::UBigint);
    declare(&mut columns, "schema_hash", ColumnKind::UBigint);
    declare(&mut columns, "driver_ids", ColumnKind::Varchar);
    declare(&mut columns, "lap_count", ColumnKind::UBigint);
    declare(&mut columns, "fastest_lap_number", ColumnKind::Bigint);
    declare(&mut columns, "fastest_lap_time_ns", ColumnKind::UBigint);
    declare(&mut columns, "video_frame_count", ColumnKind::UBigint);
    declare(&mut columns, "driver", ColumnKind::Varchar);
    declare(&mut columns, "vehicle", ColumnKind::Varchar);
    declare(&mut columns, "venue", ColumnKind::Varchar);
    declare(&mut columns, "event", ColumnKind::Varchar);
    declare(&mut columns, "session", ColumnKind::Varchar);
    declare(&mut columns, "date", ColumnKind::Varchar);
    declare(&mut columns, "time", ColumnKind::Varchar);
    declare(&mut columns, "absolute_clock", ColumnKind::Varchar);
    columns
}

/// The columns of a table of sessions.
pub fn session_metadata_columns() -> (columns: Vec<Column>)
    ensures
        columns_of(columns@) == seq![
            plain("session_key"@, ColumnKind::Varchar),
            plain("file_count"@, ColumnKind::UBigint),
            plain("absolute_start_ns"@, ColumnKind::UBigint),
            plain("absolute_end_ns"@, ColumnKind::UBigint),
            plain("duration_ns"@, ColumnKind::UBigint),
            plain("driver_ids"@, ColumnKind::Varchar),
            plain("stint_count"@, ColumnKind::UBigint),
            plain("lap_count"@, ColumnKind::UBigint),
            plain("fastest_lap_number"@, ColumnKind::Bigint),
            plain("fastest_lap_time_ns"@, ColumnKind::UBigint),
        ],
{
    let mut columns: Vec<Column> = Vec::new();
    assert(columns_of(columns@) =~= Seq::empty());
    declare(&mut columns, "session_key", ColumnKind::Varchar);
    declare(&mut columns, "file_count", ColumnKind::UBigint);
    declare(&mut columns, "absolute_start_ns", ColumnKind::UBigint);
    declare(&mut columns, "absolute_end_ns", ColumnKind::UBigint);
    declare(&mut columns, "duration_ns", ColumnKind::UBigint);
    declare(&mut columns, "driver_ids", ColumnKind::Varchar);
    declare(&mut columns, "stint_count", ColumnKind::UBigint);
    declare(&mut columns, "lap_count", ColumnKind::UBigint);
    declare(&mut columns, "fastest_lap_number", ColumnKind::Bigint);
    declare(&mut columns, "fastest_lap_time_ns", ColumnKind::UBigint);
    columns
}

/// The columns that a wide table of a session begins with.
pub open spec fn session_leading_columns() -> Seq<ColumnModel> {
    seq![
        plain("session_key"@, ColumnKind::Varchar),
        plain("time_ns"@, ColumnKind::Bigint),
        plain("file_time_ns"@, ColumnKind::Bigint),
        plain("source_file"@, ColumnKind::Varchar),
        plain("video_file_index"@, ColumnKind::UInteger),
        plain("video_frame_index"@, ColumnKind::UBigint),
        plain("video_sync_time"@, ColumnKind::Double),
        plain("driver_id"@, ColumnKind::Bigint),
        plain("lap_number"@, ColumnKind::Bigint),
    ]
}

/// The columns that a wide table of files begins with.
pub open spec fn file_leading_columns(filename: bool, create_date: bool, modified_at: bool) -> Seq<
    ColumnModel,
> {
    (if filename {
        seq![plain("filename"@, ColumnKind::Varchar)]
    } else {
        Seq::empty()
    }) + (if create_date {
        seq![plain("create_date"@, ColumnKind::Timestamp)]
    } else {
        Seq::empty()
    }) + (if modified_at {
        seq![plain("modified_at"@, ColumnKind::Timestamp)]
    } else {
        Seq::empty()
    }) + seq![plain("time_ns"@, ColumnKind::Bigint)]
}

/// The columns that a wide table of a session begins with.
pub fn session_columns() -> (columns: Vec<Column>)
    ensures
        columns_of(columns@) == session_leading_columns(),
{
    let mut columns: Vec<Column> = Vec::new();
    assert(columns_of(columns@) =~= Seq::empty());
    declare(&mut columns, "session_key", ColumnKind::Varchar);
    declare(&mut columns, "time_ns", ColumnKind::Bigint);
    declare(&mut columns, "file_time_ns", ColumnKind::Bigint);
    declare(&mut columns, "source_file", ColumnKind::Varchar);
    declare(&mut columns, "video_file_index", ColumnKind::UInteger);
    declare(&mut columns, "video_frame_index", ColumnKind::UBigint);
    declare(&mut columns, "video_sync_time", ColumnKind::Double);
    declare(&mut columns, "driver_id", ColumnKind::Bigint);
    declare(&mut columns, "lap_number", ColumnKind::Bigint);
    columns
}

/// The columns that a wide table of files begins with.
pub fn file_columns(filename: bool, create_date: bool, modified_at: bool) -> (columns: Vec<Column>)
    ensures
        columns_of(columns@) == file_leading_columns(filename, create_date, modified_at),
{
    let mut columns: Vec<Column> = Vec::new();
    assert(columns_of(columns@) =~= Seq::empty());
    if filename {
        declare(&mut columns, "filename", ColumnKind::Varchar);
    }
    if create_date {
        declare(&mut columns, "create_date", ColumnKind::Timestamp);
    }
    if modified_at {
        declare(&mut columns, "modified_at", ColumnKind::Timestamp);
    }
    declare(&mut columns, "time_ns", ColumnKind::Bigint);
    assert(columns_of(columns@) =~= file_leading_columns(filename, create_date, modified_at));
    columns
}

/// The columns of a table of column comments.
pub fn comments_columns() -> (columns: Vec<Column>)
    ensures
        columns_of(columns@) == seq![
            plain("column_name"@, ColumnKind::Varchar),
            plain("unit"@, ColumnKind::Varchar),
            plain("ddl"@, ColumnKind::Varchar),
            plain("kv_metadata"@, ColumnKind::Varchar),
            plain("channel_map_rule"@, ColumnKind::Varchar),
        ],
{
    let mut columns: Vec<Column> = Vec::new();
    assert(columns_of(columns@) =~= Seq::empty());
    declare(&mut columns, "column_name", ColumnKind::Varchar);
    declare(&mut columns, "unit", ColumnKind::Varchar);
    declare(&mut columns, "ddl", ColumnKind::Varchar);
    declare(&mut columns, "kv_metadata", ColumnKind::Varchar);
    declare(&mut columns, "channel_map_rule", ColumnKind::Varchar);
    columns
}

/// The columns of the report on a written file.
pub fn write_columns() -> (columns: Vec<Column>)
    ensures
        columns_of(columns@) == seq![
            plain("source"@, ColumnKind::Varchar),
            plain("output"@, ColumnKind::Varchar),
            plain("format"@, ColumnKind::Varchar),
            plain("channels"@, ColumnKind::UBigint),
            plain("samples"@, ColumnKind::UBigint),
            plain("bytes"@, ColumnKind::UBigint),
            plain("sidecar"@, ColumnKind::Varchar),
            plain("sidecar_bytes"@, ColumnKind::UBigint),
        ],
{
    let mut columns: Vec<Column> = Vec::new();
    assert(columns_of(columns@) =~= Seq::empty());
    declare(&mut columns, "source", ColumnKind::Varchar);
    declare(&mut columns, "output", ColumnKind::Varchar);
    declare(&mut columns, "format", ColumnKind::Varchar);
    declare(&mut columns, "channels", ColumnKind::UBigint);
    declare(&mut columns, "samples", ColumnKind::UBigint);
    declare(&mut columns, "bytes", ColumnKind::UBigint);
    declare(&mut columns, "sidecar", ColumnKind::Varchar);
    declare(&mut columns, "sidecar_bytes", ColumnKind::UBigint);
    columns
}

/// The columns of the table of units.
pub fn units_columns() -> (columns: Vec<Column>)
    ensures
        columns_of(columns@) == seq![
            plain("unit"@, ColumnKind::Varchar),
            plain("canonical_unit"@, ColumnKind::Varchar),
            plain("is_canonical"@, ColumnKind::Boolean),
            plain("dimension"@, ColumnKind::Varchar),
            plain("base_unit"@, ColumnKind::Varchar),
            plain("to_base_factor"@, ColumnKind::Double),
            plain("to_base_offset"@, ColumnKind::Double),
            plain("is_convertible"@, ColumnKind::Boolean),
        ],
{
    let mut columns: Vec<Column> = Vec::new();
    assert(columns_of(columns@) =~= Seq::empty());
    declare(&mut columns, "unit", ColumnKind::Varchar);
    declare(&mut columns, "canonical_unit", ColumnKind::Varchar);
    declare(&mut columns, "is_canonical", ColumnKind::Boolean);
    declare(&mut columns, "dimension", ColumnKind::Varchar);
    declare(&mut columns, "base_unit", ColumnKind::Varchar);
    declare(&mut columns, "to_base_factor", ColumnKind::Double);
    declare(&mut columns, "to_base_offset", ColumnKind::Double);
    declare(&mut columns, "is_convertible", ColumnKind::Boolean);
    columns
}

// ---------------------------------------------------------------------------------------
// Handing rows out
// ---------------------------------------------------------------------------------------
/// The columns to hand out: those that are asked for, or all where none are named.
pub fn projected(asked: Vec<u64>, total: u64) -> (columns: Vec<u64>)
    ensures
        asked@.len() > 0 ==> columns@ == asked@,
        asked@.len() == 0 ==> columns@ == Seq::new(total as nat, |i: int| i as u64),
{
    if asked.len() > 0 {
        return asked;
    }
    let mut columns: Vec<u64> = Vec::new();
    let mut i: u64 = 0;
    while i < total
        invariant
            i <= total,
            columns@ == Seq::new(i as nat, |k: int| k as u64),
        decreases total - i,
    {
        columns.push(i);
        i = i + 1;
        assert(columns@ =~= Seq::new(i as nat, |k: int| k as u64));
    }
    columns
}

/// The rows of a page that starts at `start`, up to the end of the page or of the table; none
/// after the last row.
pub open spec fn page_of(start: usize, total: usize) -> Option<(usize, usize)> {
    if start >= total {
        None
    } else if total - start < 2048 {
        Some((start, total))
    } else {
        Some((start, (start + 2048) as usize))
    }
}

/// The rows of a page that starts at `start`; none after the last row.
pub fn page(start: usize, total: usize) -> (rows: Option<(usize, usize)>)
    ensures
        rows == page_of(start, total),
{
    if start >= total {
        None
    } else if total - start < 2048 {
        Some((start, total))
    } else {
        Some((start, start + 2048))
    }
}

/// The number of threads for a number of tasks on a number of processors.
pub fn worker_count(tasks: usize, processors: usize) -> (workers: u64)
    ensures
        workers == (if tasks == 0 || processors == 0 {
            1
        } else if tasks <= processors {
            tasks as int
        } else {
            processors as int
        }),
{
    let few: usize = if tasks <= processors {
        tasks
    } else {
        processors
    };
    if few == 0 {
        1
    } else {
        few as u64
    }
}

/// Calls that start at the multiples of the page size hand out every row exactly once: the row
/// stands on the page of the one call, and of no other.
pub proof fn law_pages_hold_every_row(total: usize, row: usize, call: int)
    requires
        row < total,
        0 <= call,
        2048 * call <= usize::MAX,
    ensures
        (page_of((2048 * call) as usize, total) matches Some((start, end)) && start <= row < end)
            <==> call == row / 2048,
{
}

// ---------------------------------------------------------------------------------------
// Handing out
// ---------------------------------------------------------------------------------------
/// The portion that a call gets, given how many calls came before it.
pub open spec fn portion_for<T>(portions: Seq<T>, call: int) -> Option<T> {
    if 0 <= call < portions.len() {
        Some(portions[call])
    } else {
        None
    }
}

/// What the first calls get, one after the other.
pub open spec fn handed_out<T>(portions: Seq<T>, calls: nat) -> Seq<T>
    decreases calls,
{
    if calls == 0 {
        Seq::empty()
    } else {
        let before = handed_out(portions, (calls - 1) as nat);
        match portion_for(portions, calls - 1) {
            Some(portion) => before.push(portion),
            None => before,
        }
    }
}

/// Every portion is handed out by exactly one call, the one with its number, and later calls get
/// nothing: what the calls get are the portions in order, all of them after that many calls.
pub proof fn law_portions_are_handed_out_once<T>(portions: Seq<T>, calls: nat)
    ensures
        calls <= portions.len() ==> handed_out(portions, calls) == portions.take(calls as int),
        calls >= portions.len() ==> handed_out(portions, calls) == portions,
        calls < portions.len() ==> portion_for(portions, calls as int) == Some(
            portions[calls as int],
        ),
        calls >= portions.len() ==> portion_for(portions, calls as int) is None,
    decreases calls,
{
    if calls > 0 {
        law_portions_are_handed_out_once(portions, (calls - 1) as nat);
        if calls <= portions.len() {
            assert(portions.take(calls - 1).push(portions[calls - 1]) =~= portions.take(
                calls as int,
            ));
        }
    }
    assert(portions.take(portions.len() as int) =~= portions);
    assert(portions.take(0) =~= Seq::empty());
}

/// The portion that a call gets, given how many calls came before it; nothing where all are
/// handed out.
pub fn next_portion<T: Copy>(portions: &Vec<T>, call: usize) -> (portion: Option<T>)
    ensures
        portion == portion_for(portions@, call as int),
{
    if call < portions.len() {
        Some(portions[call])
    } else {
        None
    }
}

} // verus!
