//! What stands in the columns of tables, and what holds of their rows.
use crate::cell::CellModel;
use crate::channel_map::{mapped_name, mapped_unit, Rule};
use crate::channels::{channel_cell_of, rows_from, RegisteredUnit};
use crate::comments::{statement_cell_of, Statement};
use crate::export::{requested_format, write_cell_of, WriteReport};
use crate::laws::comments::provenance;
use crate::metadata::{
    drivers_of, file_cell_of, listed, session_cell_of, FileMetadata, SessionMetadata,
};
use crate::params::{first_reading, row_error, rows_error};
use crate::pds::file::{reading_at, value_at, Channel, PdsFile};
use crate::pds::table::{
    channel_in_ns, pds_channel_cell_of, pds_sample_cell_of, pds_wide_cell_of,
};
use crate::sample::SampleType;
use crate::samples::SampleSegment;
use crate::source::{SourceChannel, SourceFile};
use crate::text::{decimal, lower, signed_decimal};
use crate::units::{
    first_failure, registry_rows, rows_for, tagged_unit, unit_cell_of, RowModel, UnitDef,
};
use vstd::prelude::*;

verus! {

/// A cell with a text, or nothing.
pub open spec fn maybe_text(text: Option<String>) -> CellModel {
    match text {
        Some(text) => CellModel::Text(text@),
        None => CellModel::Null,
    }
}

/// A cell with a number, or nothing.
pub open spec fn maybe_number(n: Option<u64>) -> CellModel {
    match n {
        Some(n) => CellModel::Unsigned(n),
        None => CellModel::Null,
    }
}

/// How the representation of samples is reported: its code and its name.
pub open spec fn code_and_name(sample_type: SampleType) -> (u32, Seq<char>) {
    match sample_type {
        SampleType::U8 => (1, "uint8"@),
        SampleType::I16 => (2, "int16"@),
        SampleType::U16 => (3, "uint16"@),
        SampleType::I32 => (4, "int32"@),
        SampleType::U32 => (5, "uint32"@),
        SampleType::F32 => (6, "float32"@),
        SampleType::F64 => (7, "float64"@),
    }
}

// ---------------------------------------------------------------------------------------
// Channels
// ---------------------------------------------------------------------------------------
/// A row of channels tells, in this order, the file and its format, the channel's number, name,
/// unit and where the unit comes from, what the registry calls the unit and its dimension, the
/// representation of its samples, the frequency and the period of its first chunk, how many
/// samples and chunks it has and how long it lasts; name and unit by the rules for the channel.
pub proof fn law_a_row_of_channels(
    file: SourceFile,
    channel: SourceChannel,
    rules: Seq<Rule>,
    registered: RegisteredUnit,
    ordinal: usize,
)
    ensures
        ({
            let unit = mapped_unit(rules, channel.name@, channel.unit@, channel.unit_source);
            let chunks = channel.chunks@;
            Seq::new(
                15,
                |column: int|
                    channel_cell_of(file, channel, rules, registered, column as u64, ordinal),
            ) == seq![
                CellModel::Text(file.path@),
                CellModel::Text(file.format@),
                CellModel::Unsigned32(channel.id),
                CellModel::Text(mapped_name(rules, channel.name@)),
                CellModel::Text(unit.0),
                CellModel::Text(provenance(unit.1)),
                maybe_text(registered.canonical),
                maybe_text(registered.dimension),
                CellModel::Unsigned32(code_and_name(channel.sample_type).0),
                CellModel::Text(code_and_name(channel.sample_type).1),
                if chunks.len() > 0 {
                    CellModel::Ratio {
                        numerator: 1_000_000_000,
                        denominator: chunks[0].sample_period_ns,
                    }
                } else {
                    CellModel::Null
                },
                if chunks.len() > 0 {
                    CellModel::Unsigned(chunks[0].sample_period_ns)
                } else {
                    CellModel::Null
                },
                CellModel::Unsigned(channel.sample_count),
                CellModel::Unsigned(chunks.len() as u64),
                CellModel::Unsigned(channel.duration_ns),
            ]
        }),
{
}

/// The rows of channels come by file, and in a file in the order of its channels.
pub proof fn law_channels_come_in_order(files: Seq<SourceFile>, file: int)
    requires
        files.len() <= usize::MAX,
        0 <= file,
    ensures
        ({
            let rows = rows_from(files, file);
            &&& forall|i: int, j: int|
                0 <= i < j < rows.len() ==> (#[trigger] rows[i]).0 < (#[trigger] rows[j]).0
                    || rows[i].0 == rows[j].0 && rows[i].1 < rows[j].1
            &&& forall|i: int| 0 <= i < rows.len() ==> (#[trigger] rows[i]).0 >= file
        }),
    decreases files.len() - file,
{
    let rows = rows_from(files, file);
    if file < files.len() {
        law_channels_come_in_order(files, file + 1);
        let count = files[file].channels@.len();
        assert(count == files[file].channels.len());
        let own = crate::channels::file_rows(file, count);
        let rest = rows_from(files, file + 1);
        assert forall|i: int| 0 <= i < rows.len() implies (i < own.len() ==> #[trigger] rows[i] == (
            file as usize,
            i as usize,
        )) && (i >= own.len() ==> rows[i] == rest[i - own.len()]) by {}
        assert forall|i: int, j: int| 0 <= i < j < rows.len() implies (#[trigger] rows[i]).0 < (
        #[trigger] rows[j]).0 || rows[i].0 == rows[j].0 && rows[i].1 < rows[j].1 by {
            if i >= own.len() {
                assert(rows[i] == rest[i - own.len()] && rows[j] == rest[j - own.len()]);
            } else if j >= own.len() {
                assert(rows[j] == rest[j - own.len()]);
            }
        }
        assert forall|i: int| 0 <= i < rows.len() implies (#[trigger] rows[i]).0 >= file by {
            if i >= own.len() {
                assert(rows[i] == rest[i - own.len()]);
            }
        }
    }
}

// ---------------------------------------------------------------------------------------
// PDS tables
// ---------------------------------------------------------------------------------------
/// A row of PDS channels tells, in this order, the file, the channel's number, name and unit,
/// the representation of its samples, the frequency and the period of its first chunk, how many
/// samples and chunks it has and how long it lasts. There are ten million ticks to the second,
/// of a hundred nanoseconds each.
pub proof fn law_a_row_of_pds_channels(file: PdsFile<'_>, channel: Channel, ordinal: usize)
    ensures
        ({
            let chunks = channel.chunks@;
            Seq::new(
                11,
                |column: int| pds_channel_cell_of(file, channel, column as u64, ordinal),
            ) == seq![
                CellModel::Text(file.path@),
                CellModel::Unsigned32(channel.id),
                CellModel::Text(channel.name@),
                CellModel::Text(channel.unit@),
                CellModel::Unsigned32(code_and_name(channel.sample_type).0),
                CellModel::Text(code_and_name(channel.sample_type).1),
                if chunks.len() > 0 {
                    CellModel::Ratio {
                        numerator: 10_000_000,
                        denominator: chunks[0].sample_period_ticks as u64,
                    }
                } else {
                    CellModel::Null
                },
                if chunks.len() > 0 {
                    CellModel::Unsigned((chunks[0].sample_period_ticks * 100) as u64)
                } else {
                    CellModel::Null
                },
                CellModel::Unsigned(channel.sample_count),
                CellModel::Unsigned(chunks.len() as u64),
                CellModel::Unsigned(channel.duration_ns),
            ]
        }),
{
}

/// A row of PDS samples tells, in this order, the file, the channel's number, name and unit,
/// the frequency of the chunk, the number and the time of the sample, and its value: the sample
/// that lies as many samples behind the start of the chunk's data as its index says.
pub proof fn law_a_row_of_pds_samples(
    file: PdsFile<'_>,
    segment: SampleSegment,
    ordinal: usize,
    row: u64,
)
    ensures
        ({
            let channel = file.channels@[segment.channel as int];
            let chunk = channel.chunks@[segment.chunk as int];
            let index = segment.local_start + row;
            Seq::new(
                8,
                |column: int| pds_sample_cell_of(file, segment, ordinal, column as u64, row),
            ) == seq![
                CellModel::Text(file.path@),
                CellModel::Unsigned32(channel.id),
                CellModel::Text(channel.name@),
                CellModel::Text(channel.unit@),
                CellModel::Ratio {
                    numerator: 10_000_000,
                    denominator: chunk.sample_period_ticks as u64,
                },
                CellModel::Unsigned((chunk.sample_base + index) as u64),
                CellModel::Signed(
                    (chunk.time_base_ns + index * (chunk.sample_period_ticks * 100)) as i64,
                ),
                CellModel::Stored(
                    value_at(
                        file.data@,
                        channel.sample_type,
                        chunk.data_ptr + index * crate::laws::pds::bytes_of(channel.sample_type),
                    ),
                ),
            ]
        }),
{
    crate::laws::pds::law_widths_hold_the_values(
        file.channels@[segment.channel as int].sample_type,
    );
}

/// In a wide table of PDS files a channel's cell holds the channel's value at the time of the
/// row, blended as the table asks for, and nothing once the channel has ended; every other cell
/// stays as it is.
pub proof fn law_pds_readings(
    file: PdsFile<'_>,
    channel: usize,
    time_ns: u64,
    linear: bool,
    conversion: Option<crate::number::Affine>,
    cell: CellModel,
)
    ensures
        ({
            let source = file.channels@[channel as int];
            let reading = CellModel::Reading { channel, time_ns, linear, conversion };
            &&& time_ns < source.duration_ns ==> pds_wide_cell_of(file, reading)
                == CellModel::Between(reading_at(file.data@, source, time_ns, linear))
            &&& time_ns >= source.duration_ns ==> pds_wide_cell_of(file, reading) is Null
            &&& !(cell is Reading) ==> pds_wide_cell_of(file, cell) == cell
        }),
{
}

/// A PDS channel is taken over as it is, with its periods in nanoseconds and the file stating
/// no more about its unit.
pub proof fn law_pds_channels_are_taken_over(channel: Channel, i: int)
    requires
        0 <= i < channel.chunks@.len(),
    ensures
        ({
            let model = channel_in_ns(channel);
            &&& model.id == channel.id
            &&& model.name == channel.name@
            &&& model.unit == channel.unit@
            &&& model.unit_source is Unknown
            &&& model.sample_type == channel.sample_type
            &&& model.sample_count == channel.sample_count
            &&& model.duration_ns == channel.duration_ns
            &&& model.chunks.len() == channel.chunks@.len()
            &&& model.chunks[i].sample_period_ns == channel.chunks@[i].sample_period_ticks * 100
            &&& model.chunks[i].sample_count == channel.chunks@[i].sample_count
            &&& model.chunks[i].data_ptr == channel.chunks@[i].data_ptr
            &&& model.chunks[i].sample_base == channel.chunks@[i].sample_base
            &&& model.chunks[i].time_base_ns == channel.chunks@[i].time_base_ns
        }),
{
}

// ---------------------------------------------------------------------------------------
// Metadata
// ---------------------------------------------------------------------------------------
/// The row of a file tells what is known of it, in this order.
pub proof fn law_a_row_of_files(file: FileMetadata)
    ensures
        Seq::new(23, |column: int| file_cell_of(file, column as u64)) == seq![
            CellModel::Text(file.path@),
            CellModel::Text(file.format@),
            maybe_text(file.session_key),
            maybe_number(file.absolute_start_ns),
            maybe_number(file.absolute_end_ns),
            CellModel::Unsigned(file.duration_ns),
            CellModel::Unsigned(file.channel_count),
            CellModel::Unsigned(file.sampled_channel_count),
            CellModel::Unsigned(file.sample_count),
            CellModel::Unsigned(file.schema_hash),
            CellModel::Text(listed(file.driver_ids@)),
            CellModel::Unsigned(file.lap_count),
            match file.fastest_lap {
                Some(lap) => CellModel::Signed(lap.number),
                None => CellModel::Null,
            },
            match file.fastest_lap {
                Some(lap) => CellModel::Unsigned(lap.duration_ns),
                None => CellModel::Null,
            },
            maybe_number(file.video_frame_count),
            CellModel::Text(file.identity.driver@),
            CellModel::Text(file.identity.vehicle@),
            CellModel::Text(file.identity.venue@),
            CellModel::Text(file.identity.event@),
            CellModel::Text(file.identity.session@),
            CellModel::Text(file.identity.date@),
            CellModel::Text(file.identity.time@),
            maybe_text(file.absolute_clock),
        ],
{
}

/// The row of a session tells what is known of it, in this order; its drivers are those of all
/// its files.
pub proof fn law_a_row_of_sessions(session: SessionMetadata, files: Seq<FileMetadata>)
    ensures
        Seq::new(10, |column: int| session_cell_of(session, files, column as u64)) == seq![
            CellModel::Text(session.session_key@),
            CellModel::Unsigned(session.files@.len() as u64),
            maybe_number(session.absolute_start_ns),
            maybe_number(session.absolute_end_ns),
            CellModel::Unsigned(session.duration_ns),
            CellModel::Text(listed(drivers_of(files, session.files@))),
            CellModel::Unsigned(session.stint_count),
            CellModel::Unsigned(session.lap_count),
            match session.fastest_lap {
                Some(lap) => CellModel::Signed(lap.number),
                None => CellModel::Null,
            },
            match session.fastest_lap {
                Some(lap) => CellModel::Unsigned(lap.duration_ns),
                None => CellModel::Null,
            },
        ],
{
}

/// Drivers are listed by their numbers, in their order, with commas between them.
pub proof fn law_drivers_are_listed(ids: Seq<i64>, id: i64)
    ensures
        listed(Seq::<i64>::empty()).len() == 0,
        listed(seq![id]) == signed_decimal(id as int),
        ids.len() > 0 ==> listed(ids.push(id)) == listed(ids) + seq![','] + signed_decimal(
            id as int,
        ),
{
    assert(crate::metadata::in_decimal(Seq::<i64>::empty()) =~= Seq::empty());
    assert(crate::metadata::in_decimal(seq![id]) =~= seq![signed_decimal(id as int)]);
    let all = crate::metadata::in_decimal(ids.push(id));
    assert(all.drop_last() =~= crate::metadata::in_decimal(ids));
}

// ---------------------------------------------------------------------------------------
// Units
// ---------------------------------------------------------------------------------------
/// A row of units tells, in this order, the spelling, the canonical spelling and whether it is
/// that one, the dimension and its base unit, factor and offset to the base unit, and whether
/// the unit can be converted.
pub proof fn law_a_row_of_units(row: RowModel)
    ensures
        Seq::new(8, |column: int| unit_cell_of(row, column as u64)) == seq![
            CellModel::Text(row.spelling),
            CellModel::Text(row.canonical),
            CellModel::Flag(row.is_canonical),
            CellModel::Text(row.dimension),
            CellModel::Text(row.base_unit),
            CellModel::Number(row.factor),
            CellModel::Number(row.offset),
            CellModel::Flag(row.is_convertible),
        ],
{
}

/// A unit has a row for its canonical spelling and then one for each other spelling; all of them
/// tell what the registry says of the unit. The rows of units come in the order of the registry.
pub proof fn law_rows_of_a_unit(defs: Seq<UnitDef>, def: UnitDef, k: int)
    requires
        0 <= k <= def.aliases@.len(),
    ensures
        ({
            let own = rows_for(def);
            let row = own[k];
            &&& registry_rows(defs.push(def)) == registry_rows(defs) + own
            &&& registry_rows(Seq::empty()).len() == 0
            &&& own.len() == def.aliases@.len() + 1
            &&& row.is_canonical == (k == 0)
            &&& k == 0 ==> row.spelling == def.canonical@
            &&& k > 0 ==> row.spelling == def.aliases@[k - 1]@
            &&& row.canonical == def.canonical@
            &&& row.dimension == def.dimension@
            &&& row.base_unit == def.base_unit@
            &&& row.factor == def.factor
            &&& row.offset == def.offset
            &&& row.is_convertible == def.is_convertible
        }),
{
    assert(defs.push(def).drop_last() =~= defs);
}

/// A conversion of rows fails exactly if one row does, with the message of the first.
pub proof fn law_the_first_failure(rows: Seq<Result<u64, String>>, i: int)
    requires
        0 <= i <= rows.len(),
    ensures
        match first_failure(rows, i) {
            Some(message) => exists|k: int|
                i <= k < rows.len() && (#[trigger] rows[k]) is Err && rows[k]->Err_0@ == message
                    && forall|j: int| i <= j < k ==> (#[trigger] rows[j]) is Ok,
            None => forall|k: int| i <= k < rows.len() ==> (#[trigger] rows[k]) is Ok,
        },
    decreases rows.len() - i,
{
    if i < rows.len() {
        if rows[i] is Ok {
            law_the_first_failure(rows, i + 1);
            if let Some(message) = first_failure(rows, i + 1) {
                let k = choose|k: int|
                    i + 1 <= k < rows.len() && (#[trigger] rows[k]) is Err && rows[k]->Err_0@
                        == message && forall|j: int| i + 1 <= j < k ==> (#[trigger] rows[j]) is Ok;
                assert(rows[k] is Err);
            }
        } else {
            assert(rows[i] is Err);
        }
    }
}

/// Only the name of a tag tells a unit, and only one that is not empty.
pub proof fn law_only_tags_tell_units(name: Seq<char>)
    ensures
        match tagged_unit(name) {
            Some(unit) => unit.len() > 0 && name == "telemetry_unit:"@ + unit,
            None => forall|unit: Seq<char>|
                unit.len() > 0 ==> name != #[trigger] ("telemetry_unit:"@ + unit),
        },
{
    let mark = "telemetry_unit:"@;
    match tagged_unit(name) {
        Some(unit) => {
            assert(name.subrange(0, mark.len() as int) == mark);
            assert(name =~= name.subrange(0, mark.len() as int) + unit);
        },
        None => {
            assert forall|unit: Seq<char>| unit.len() > 0 implies name != #[trigger] (mark
                + unit) by {
                if name == mark + unit {
                    assert(name.subrange(0, mark.len() as int) =~= mark);
                    assert(crate::text::occurs_at(name, mark, 0));
                }
            }
        },
    }
}

// ---------------------------------------------------------------------------------------
// Statements and reports
// ---------------------------------------------------------------------------------------
/// The row of a statement tells, in this order, the column and its unit, the statement, the
/// payload and the rule.
pub proof fn law_a_row_of_statements(statement: Statement)
    ensures
        Seq::new(5, |column: int| statement_cell_of(statement, column as u64)) == seq![
            CellModel::Text(statement.column@),
            CellModel::Text(statement.unit@),
            CellModel::Text(statement.ddl@),
            CellModel::Text(statement.kv_metadata@),
            CellModel::Text(statement.channel_map_rule@),
        ],
{
}

/// The row of a report tells, in this order, the source, the output, the format, how many
/// channels and samples were written in how many bytes, and the file beside it and its size.
pub proof fn law_a_row_of_a_report(report: WriteReport)
    ensures
        Seq::new(8, |column: int| write_cell_of(report, column as u64)) == seq![
            CellModel::Text(report.source@),
            CellModel::Text(report.output@),
            CellModel::Text("motec"@),
            CellModel::Unsigned(report.channels),
            CellModel::Unsigned(report.samples),
            CellModel::Unsigned(report.bytes),
            CellModel::Text(report.sidecar@),
            CellModel::Unsigned(report.sidecar_bytes),
        ],
{
}

/// The format of an output is the one that is asked for; otherwise the extension tells it,
/// whatever the case of its letters, and it is MoTeC's where the extension tells none.
pub proof fn law_the_format_of_an_output(
    format: Option<Seq<char>>,
    extension: Option<Seq<char>>,
)
    ensures
        ({
            let told = requested_format(format, extension);
            &&& format matches Some(format) ==> told == format
            &&& format is None && extension is None ==> told == "motec"@
            &&& format is None ==> (extension matches Some(extension) ==> {
                &&& lower(extension) == "pds"@ ==> told == "pds"@
                &&& lower(extension) == "vbo"@ ==> told == "vbo"@
                &&& lower(extension) != "pds"@ && lower(extension) != "vbo"@ ==> told == "motec"@
            })
        }),
{
    reveal_strlit("pds");
    reveal_strlit("vbo");
    assert("pds"@[0] == 'p' && "vbo"@[0] == 'v');
}

// ---------------------------------------------------------------------------------------
// Arguments
// ---------------------------------------------------------------------------------------
/// Whether a row of an argument is a list of the right length.
pub open spec fn is_right(row: Option<Vec<String>>, width: nat) -> bool {
    row matches Some(cells) && cells@.len() == width
}

/// Rows of an argument are taken exactly if each is a list of the right length; the message is
/// about the first that is not, which it tells by its number, counted from one.
pub proof fn law_the_first_wrong_row(
    name: Seq<char>,
    rows: Seq<Option<Vec<String>>>,
    width: nat,
    i: int,
)
    requires
        0 <= i <= rows.len(),
    ensures
        match rows_error(name, rows, width, i) {
            None => forall|k: int| i <= k < rows.len() ==> is_right(#[trigger] rows[k], width),
            Some(message) => exists|k: int|
                i <= k < rows.len() && !is_right(#[trigger] rows[k], width) && (forall|j: int|
                    i <= j < k ==> is_right(#[trigger] rows[j], width)) && message == (
                match rows[k] {
                    None => name + " row "@ + decimal((k + 1) as nat) + " must be a list"@,
                    Some(cells) => name + " row "@ + decimal((k + 1) as nat) + " must contain "@
                        + decimal(width) + " strings, got "@ + decimal(cells@.len()),
                }),
        },
    decreases rows.len() - i,
{
    if i < rows.len() {
        if row_error(name, rows[i], (i + 1) as nat, width) is None {
            law_the_first_wrong_row(name, rows, width, i + 1);
            assert(is_right(rows[i], width));
            if let Some(message) = rows_error(name, rows, width, i + 1) {
                let k = choose|k: int|
                    i + 1 <= k < rows.len() && !is_right(#[trigger] rows[k], width) && (forall|
                        j: int,
                    |
                        i + 1 <= j < k ==> is_right(#[trigger] rows[j], width)) && message == (
                    match rows[k] {
                        None => name + " row "@ + decimal((k + 1) as nat) + " must be a list"@,
                        Some(cells) => name + " row "@ + decimal((k + 1) as nat)
                            + " must contain "@ + decimal(width) + " strings, got "@ + decimal(
                            cells@.len(),
                        ),
                    });
                assert(!is_right(rows[k], width));
            }
        } else {
            assert(!is_right(rows[i], width));
        }
    }
}

/// A date is read as a moment with its zone where it is one, otherwise as a date and time, and
/// otherwise as a day.
pub proof fn law_the_first_reading_of_a_date(
    rfc3339: Option<i64>,
    datetime: Option<i64>,
    date: Option<i64>,
)
    ensures
        rfc3339 matches Some(micros) ==> first_reading(rfc3339, datetime, date) == Some(micros),
        rfc3339 is None ==> (datetime matches Some(micros) ==> first_reading(
            rfc3339,
            datetime,
            date,
        ) == Some(micros)),
        rfc3339 is None && datetime is None ==> first_reading(rfc3339, datetime, date) == date,
{
}

} // verus!
