//! What holds of wide tables.
use crate::cell::CellModel;
use crate::channel_map::{mapped_unit, rule_named, Rule};
use crate::filter::requested_names;
use crate::laws::rules::{is_conversion_for, is_first_rule, is_left_alone, lemma_rule};
use crate::laws::samples::{is_absent, law_missing_names_are_told};
use crate::samples::map_refusal;
use crate::schema::{
    columns_of, file_leading_columns, session_leading_columns, ColumnKind, ColumnModel,
};
use crate::source::{channels_of, names_of, SourceChannel, SourceFile};
use crate::text::{is_ascii_alphanumeric, join, lower, optional_text, texts};
use crate::wide::{
    answers_to, driver_names, first_answering, lap_names, last_named,
    law_columns_have_their_channels, law_rows_end_in_time, longest, normalized, range_valid,
    row_time, rows_of, session_valid, unit_tag_of, units_of, wide_names, wide_refusal, Session,
    WideBind, WideRange, WideRequest,
};
use vstd::prelude::*;

verus! {

// ---------------------------------------------------------------------------------------
// Rows
// ---------------------------------------------------------------------------------------
/// Rows come at the rate: the time of a row is the last whole nanosecond that is not after it
/// is due.
pub proof fn law_rows_come_at_the_rate(start_ns: int, row: int, rate: int)
    requires
        0 <= row,
        1 <= rate,
    ensures
        ({
            let gone = row_time(start_ns, row, rate) - start_ns;
            gone * rate <= row * 1_000_000_000 < (gone + 1) * rate
        }),
{
    let n = row * 1_000_000_000;
    assert((n / rate) * rate <= n < (n / rate + 1) * rate) by (nonlinear_arith)
        requires
            rate >= 1,
    ;
}

/// Whether a channel is the one of its name in a file: the last that has it.
pub open spec fn carries(channels: Seq<SourceChannel>, name: Seq<char>, c: int) -> bool {
    &&& 0 <= c < channels.len()
    &&& lower(channels[c].name@) == lower(name)
    &&& forall|d: int|
        c < d < channels.len() ==> lower((#[trigger] channels[d]).name@) != lower(name)
}

/// Whether a file has no channel of a name.
pub open spec fn lacks(channels: Seq<SourceChannel>, name: Seq<char>) -> bool {
    forall|d: int|
        0 <= d < channels.len() ==> lower((#[trigger] channels[d]).name@) != lower(name)
}

proof fn lemma_last_named(channels: Seq<SourceChannel>, name: Seq<char>)
    requires
        channels.len() <= usize::MAX,
    ensures
        match last_named(channels, name) {
            Some(c) => carries(channels, name, c as int),
            None => lacks(channels, name),
        },
        forall|c: int|
            carries(channels, name, c) ==> last_named(channels, name) == Some(c as usize),
{
    law_columns_have_their_channels(channels, name);
    assert forall|c: int| carries(channels, name, c) implies last_named(channels, name) == Some(
        c as usize,
    ) by {
        let found = last_named(channels, name);
        assert(lower(channels[c].name@) == lower(name));
        if let Some(i) = found {
            assert(lower(channels[i as int].name@) == lower(name));
        }
    }
}

/// A file takes part in a table for as long as the longest of its channels in it: none of them
/// lasts longer, and one lasts as long, unless there is none.
pub proof fn law_a_file_lasts_as_its_longest_channel(
    channels: Seq<SourceChannel>,
    names: Seq<Seq<char>>,
)
    requires
        channels.len() <= usize::MAX,
    ensures
        forall|k: int, c: int|
            #![trigger carries(channels, names[k], c)]
            0 <= k < names.len() && carries(channels, names[k], c) ==> channels[c].duration_ns
                <= longest(channels, names),
        longest(channels, names) == 0 || exists|k: int, c: int|
            #![trigger carries(channels, names[k], c)]
            0 <= k < names.len() && carries(channels, names[k], c) && channels[c].duration_ns
                == longest(channels, names),
    decreases names.len(),
{
    let all = longest(channels, names);
    if names.len() > 0 {
        let front = names.drop_last();
        let before = longest(channels, front);
        law_a_file_lasts_as_its_longest_channel(channels, front);
        lemma_last_named(channels, names.last());
        assert forall|k: int, c: int|
            #![trigger carries(channels, names[k], c)]
            0 <= k < names.len() && carries(channels, names[k], c) implies channels[c].duration_ns
            <= all by {
            if k < front.len() {
                assert(carries(channels, front[k], c));
            }
        }
        if all != 0 {
            if all == before {
                let (k, c) = choose|k: int, c: int|
                    #![trigger carries(channels, front[k], c)]
                    0 <= k < front.len() && carries(channels, front[k], c)
                        && channels[c].duration_ns == before;
                assert(carries(channels, names[k], c));
            } else {
                assert(carries(
                    channels,
                    names[names.len() - 1],
                    last_named(channels, names.last())->0 as int,
                ));
            }
        }
    }
}

/// Whether a file's rows are those of a time on its own clock: they start with it, and a row
/// is there exactly if it comes before the end and before the channels end.
pub open spec fn spans(
    range: WideRange,
    rate: u64,
    channels: Seq<SourceChannel>,
    names: Seq<Seq<char>>,
    start: int,
    end: int,
) -> bool {
    &&& range.start_ns == start
    &&& forall|row: int|
        0 <= row ==> (row < range.rows <==> #[trigger] row_time(start, row, rate as int) < end
            && row_time(start, row, rate as int) < longest(channels, names))
}

proof fn lemma_spans(
    range: WideRange,
    rate: u64,
    channels: Seq<SourceChannel>,
    names: Seq<Seq<char>>,
    start: int,
    end: int,
)
    requires
        range_valid(range, rate),
        1 <= rate,
        range.start_ns == start,
        ({
            let d = longest(channels, names);
            range.end_ns == (if end < 0 {
                0
            } else if end < d {
                end
            } else {
                d as int
            })
        }),
    ensures
        spans(range, rate, channels, names, start, end),
{
    assert forall|row: int| 0 <= row implies (row < range.rows <==> #[trigger] row_time(
        start,
        row,
        rate as int,
    ) < end && row_time(start, row, rate as int) < longest(channels, names)) by {
        law_rows_come_at_the_rate(start, row, rate as int);
        let gone = row_time(start, row, rate as int) - start;
        assert(gone >= 0) by (nonlinear_arith)
            requires
                0 <= row * 1_000_000_000 < (gone + 1) * rate,
                rate >= 1,
        ;
        if start <= range.end_ns {
            law_rows_end_in_time(start, range.end_ns as int, rate as int, row);
        }
    }
}

/// The start of the time that is asked for.
pub open spec fn asked_start(request: WideRequest) -> int {
    match request.start_ns {
        Some(ns) => if ns > 0 {
            ns as int
        } else {
            0
        },
        None => 0,
    }
}

/// The end of the time that is asked for.
pub open spec fn asked_end(request: WideRequest) -> int {
    match request.end_ns {
        Some(ns) => if ns > 0 {
            ns as int
        } else {
            0
        },
        None => i64::MAX as int,
    }
}

/// Where a file starts in a session.
pub open spec fn place_of(session: Session, file: int) -> int {
    match session.clock_offsets_ns@[file] {
        Some(offset) => offset - session.base_ns,
        None => -session.base_ns,
    }
}

/// Outside a session the rows of each file are those of the time that is asked for, at the
/// rate, until its channels end.
pub proof fn law_rows_lie_in_the_window(
    bind: WideBind,
    files: Seq<SourceFile>,
    request: WideRequest,
    file: int,
)
    requires
        bind.valid(files.len() as int),
        bind.answers(files, request, None),
        0 <= file < files.len(),
    ensures
        bind.rate == (match request.rate {
            Some(rate) => rate,
            None => 100,
        }),
        spans(
            bind.ranges@[file],
            bind.rate,
            files[file].channels@,
            texts(bind.names@),
            asked_start(request),
            asked_end(request),
        ),
{
    assert(range_valid(bind.ranges@[file], bind.rate));
    lemma_spans(
        bind.ranges@[file],
        bind.rate,
        files[file].channels@,
        texts(bind.names@),
        asked_start(request),
        asked_end(request),
    );
}

/// In a session the time that is asked for is on the session's clock, and each file's rows are
/// those that fall into it once the file is put where it starts in the session. A window that
/// starts before the file does starts with the file's first row; one that ends before the file
/// starts has none of its rows; and every row's moment in the session lies in the window.
pub proof fn law_session_rows_lie_in_the_window(
    bind: WideBind,
    files: Seq<SourceFile>,
    request: WideRequest,
    session: Session,
    file: int,
)
    requires
        bind.valid(files.len() as int),
        session_valid(session, files.len() as int),
        bind.answers(files, request, Some(session)),
        0 <= file < files.len(),
        0 <= place_of(session, file) <= u64::MAX,
    ensures
        ({
            let place = place_of(session, file);
            let start = asked_start(request);
            let end = asked_end(request);
            let range = bind.ranges@[file];
            &&& bind.session_offsets_ns@[file] == place
            &&& start <= place ==> range.start_ns == 0
            &&& start > place ==> range.start_ns + place == start
            &&& end <= place ==> range.rows == 0
            &&& spans(
                range,
                bind.rate,
                files[file].channels@,
                texts(bind.names@),
                range.start_ns as int,
                end - place,
            )
            &&& forall|row: int|
                0 <= row < range.rows ==> start <= #[trigger] row_time(
                    range.start_ns as int,
                    row,
                    bind.rate as int,
                ) + place < end
        }),
{
    let place = place_of(session, file);
    let start = asked_start(request);
    let end = asked_end(request);
    let range = bind.ranges@[file];
    assert(range_valid(range, bind.rate));
    assert(crate::wide::session_offset(session, file) == place);
    lemma_spans(
        range,
        bind.rate,
        files[file].channels@,
        texts(bind.names@),
        range.start_ns as int,
        end - place,
    );
    assert forall|row: int| 0 <= row < range.rows implies start <= #[trigger] row_time(
        range.start_ns as int,
        row,
        bind.rate as int,
    ) + place < end by {
        law_rows_come_at_the_rate(range.start_ns as int, row, bind.rate as int);
        let gone = row_time(range.start_ns as int, row, bind.rate as int) - range.start_ns;
        let rate = bind.rate as int;
        assert(gone >= 0) by (nonlinear_arith)
            requires
                0 <= row * 1_000_000_000 < (gone + 1) * rate,
                rate >= 1,
        ;
    }
    if end <= place && range.rows > 0 {
        let first = row_time(range.start_ns as int, 0, bind.rate as int);
        assert(first < end - place);
        law_rows_come_at_the_rate(range.start_ns as int, 0, bind.rate as int);
        let gone = first - range.start_ns;
        let rate = bind.rate as int;
        assert(gone >= 0) by (nonlinear_arith)
            requires
                0 < (gone + 1) * rate,
                rate >= 1,
        ;
    }
}

/// A file whose place in the session is not a count of nanoseconds after its start is read by
/// its own clock.
pub proof fn law_unplaced_files_keep_their_clock(
    bind: WideBind,
    files: Seq<SourceFile>,
    request: WideRequest,
    session: Session,
    file: int,
)
    requires
        bind.valid(files.len() as int),
        session_valid(session, files.len() as int),
        bind.answers(files, request, Some(session)),
        0 <= file < files.len(),
        !(0 <= place_of(session, file) <= u64::MAX),
    ensures
        bind.session_offsets_ns@[file] == place_of(session, file),
        spans(
            bind.ranges@[file],
            bind.rate,
            files[file].channels@,
            texts(bind.names@),
            asked_start(request),
            asked_end(request),
        ),
{
    assert(range_valid(bind.ranges@[file], bind.rate));
    assert(crate::wide::session_offset(session, file) == place_of(session, file));
    lemma_spans(
        bind.ranges@[file],
        bind.rate,
        files[file].channels@,
        texts(bind.names@),
        asked_start(request),
        asked_end(request),
    );
}

/// The number of rows in ranges.
pub open spec fn count_of(ranges: Seq<WideRange>) -> nat
    decreases ranges.len(),
{
    if ranges.len() == 0 {
        0
    } else {
        count_of(ranges.drop_last()) + ranges.last().rows as nat
    }
}

/// A table tells how many rows its files have, as far as 64 bits can hold the number.
pub proof fn law_the_number_of_rows(ranges: Seq<WideRange>)
    ensures
        count_of(ranges) <= u64::MAX ==> rows_of(ranges) == count_of(ranges),
        count_of(ranges) > u64::MAX ==> rows_of(ranges) == u64::MAX,
    decreases ranges.len(),
{
    if ranges.len() > 0 {
        law_the_number_of_rows(ranges.drop_last());
    }
}

// ---------------------------------------------------------------------------------------
// Cells
// ---------------------------------------------------------------------------------------
/// Whether values between samples are asked for.
pub open spec fn asks_for_blending(request: WideRequest) -> bool {
    request.interpolate matches Some(text) ==> lower(text@) == "linear"@
}

/// In the column of a name stands the value, at the time of the row, of the file's last channel
/// of that name, by the first rule for the name; nothing if the file has no such channel. The
/// value is blended exactly if blending is asked for, as it is by default.
pub proof fn law_columns_hold_their_channels_values(
    bind: WideBind,
    files: Seq<SourceFile>,
    request: WideRequest,
    session: Option<Session>,
    file: int,
    ordinal: usize,
    i: int,
    row: int,
)
    requires
        bind.valid(files.len() as int),
        bind.answers(files, request, session),
        0 <= file < files.len(),
        0 <= i < bind.names@.len(),
        0 <= row < bind.ranges@[file].rows,
    ensures
        ({
            let name = bind.names@[i]@;
            let channels = files[file].channels@;
            let column = (columns_of(bind.columns@).len() - bind.names@.len() + i) as u64;
            let cell = bind.cell_at(files[file], file, ordinal, column, row);
            &&& lacks(channels, name) ==> cell == CellModel::Null
            &&& forall|c: int| #[trigger]
                carries(channels, name, c) ==> {
                    &&& cell matches CellModel::Reading { channel, time_ns, linear, conversion }
                    &&& channel == c
                    &&& time_ns == row_time(
                        bind.ranges@[file].start_ns as int,
                        row,
                        bind.rate as int,
                    )
                    &&& linear == asks_for_blending(request)
                    &&& conversion matches Some(conversion) ==> is_conversion_for(
                        bind.map@,
                        name,
                        conversion.scale,
                        conversion.offset,
                    )
                    &&& conversion is None ==> is_left_alone(bind.map@, name)
                }
        }),
{
    let name = bind.names@[i]@;
    let channels = files[file].channels@;
    assert(texts(bind.names@)[i] == name);
    assert(channels.len() == files[file].channels.len());
    assert(columns_of(bind.columns@).len() == bind.columns.len());
    lemma_last_named(channels, name);
    assert(bind.source_channels@[file]@[i] == last_named(channels, name));
    assert(bind.conversions@[i] == crate::channel_map::mapped_conversion(bind.map@, name));
    lemma_leading(bind, files, request, session);
    assert(range_valid(bind.ranges@[file], bind.rate));
    let range = bind.ranges@[file];
    if range.start_ns <= range.end_ns {
        law_rows_end_in_time(range.start_ns as int, range.end_ns as int, bind.rate as int, row);
    }
    law_rows_come_at_the_rate(range.start_ns as int, row, bind.rate as int);
    let gone = row_time(range.start_ns as int, row, bind.rate as int) - range.start_ns;
    let rate = bind.rate as int;
    assert(gone >= 0) by (nonlinear_arith)
        requires
            0 <= row * 1_000_000_000 < (gone + 1) * rate,
            rate >= 1,
    ;
    lemma_rule(bind.map@, name);
    if let Some(rule) = rule_named(bind.map@, name) {
        let r = choose|r: int| #[trigger]
            is_first_rule(bind.map@, name, r) && bind.map@[r] == rule;
        assert(is_conversion_for(bind.map@, name, rule.scale, rule.offset));
    }
}

proof fn lemma_leading(
    bind: WideBind,
    files: Seq<SourceFile>,
    request: WideRequest,
    session: Option<Session>,
)
    requires
        bind.valid(files.len() as int),
        bind.answers(files, request, session),
    ensures
        columns_of(bind.columns@).len() == bind.fixed_columns() + bind.names@.len(),
{
    assert(texts(bind.names@).len() == bind.names@.len());
}

/// Every reading in a table, in whatever column it stands, is blended if and only if blending is
/// asked for; no reading is where the previous sample is asked for.
pub proof fn law_readings_are_blended_only_if_asked(
    bind: WideBind,
    files: Seq<SourceFile>,
    request: WideRequest,
    session: Option<Session>,
    file: int,
    ordinal: usize,
    column: u64,
    row: int,
)
    requires
        bind.answers(files, request, session),
    ensures
        bind.cell_at(files[file], file, ordinal, column, row) matches CellModel::Reading {
            linear,
            ..
        } ==> {
            &&& linear == asks_for_blending(request)
            &&& request.interpolate is None ==> linear
            &&& request.interpolate is Some && lower(request.interpolate->0@) == "linear"@
                ==> linear
            &&& request.interpolate is Some && lower(request.interpolate->0@) == "previous"@
                ==> !linear
        },
{
    reveal_strlit("linear");
    reveal_strlit("previous");
    assert("linear"@.len() == 6 && "previous"@.len() == 8);
}

/// The cell of a named leading column of a session's table.
pub open spec fn session_cell(
    bind: WideBind,
    session: Session,
    path: Seq<char>,
    file: int,
    row: int,
    name: Seq<char>,
) -> CellModel {
    let time = row_time(bind.ranges@[file].start_ns as int, row, bind.rate as int);
    let moment = time + place_of(session, file);
    if name == "session_key"@ {
        CellModel::Text(session.key@)
    } else if name == "time_ns"@ {
        CellModel::Signed(
            if i64::MIN <= moment <= i64::MAX {
                moment as i64
            } else {
                i64::MAX
            },
        )
    } else if name == "file_time_ns"@ {
        CellModel::Signed(time as i64)
    } else if name == "source_file"@ {
        CellModel::Text(path)
    } else if name == "video_file_index"@ {
        CellModel::VideoFile { time_ns: time as u64 }
    } else if name == "video_frame_index"@ {
        CellModel::VideoFrame { time_ns: time as u64 }
    } else if name == "video_sync_time"@ {
        CellModel::VideoSync { time_ns: time as u64 }
    } else if name == "driver_id"@ {
        match bind.driver_channels@[file] {
            Some(channel) => CellModel::WholeReading { channel, time_ns: time as u64 },
            None => CellModel::Null,
        }
    } else {
        match bind.lap_channels@[file] {
            Some(channel) => CellModel::WholeReading { channel, time_ns: time as u64 },
            None => CellModel::Null,
        }
    }
}

/// In a session's table each column that is no channel holds what its name says: the session,
/// the moment in the session and in the file, the file, the video, the driver and the lap.
pub proof fn law_session_columns_hold_what_they_are_named_for(
    bind: WideBind,
    files: Seq<SourceFile>,
    request: WideRequest,
    session: Session,
    file: int,
    ordinal: usize,
    column: u64,
    row: int,
)
    requires
        bind.valid(files.len() as int),
        session_valid(session, files.len() as int),
        bind.answers(files, request, Some(session)),
        0 <= file < files.len(),
        0 <= row < bind.ranges@[file].rows,
        column + bind.names@.len() < columns_of(bind.columns@).len(),
    ensures
        bind.cell_at(files[file], file, ordinal, column, row) == session_cell(
            bind,
            session,
            files[file].path@,
            file,
            row,
            columns_of(bind.columns@)[column as int].name,
        ),
{
    lemma_leading(bind, files, request, Some(session));
    lemma_session_names();
    assert(crate::wide::session_offset(session, file) == place_of(session, file));
    lemma_row_time(bind, files, request, Some(session), file, row);
    let leading = session_leading_columns();
    assert(leading.len() == 9);
    assert(columns_of(bind.columns@)[column as int] == leading[column as int]);
}

proof fn lemma_row_time(
    bind: WideBind,
    files: Seq<SourceFile>,
    request: WideRequest,
    session: Option<Session>,
    file: int,
    row: int,
)
    requires
        bind.valid(files.len() as int),
        bind.answers(files, request, session),
        0 <= file < files.len(),
        0 <= row < bind.ranges@[file].rows,
    ensures
        0 <= row_time(bind.ranges@[file].start_ns as int, row, bind.rate as int) < i64::MAX,
{
    let range = bind.ranges@[file];
    assert(range_valid(range, bind.rate));
    if range.start_ns <= range.end_ns {
        law_rows_end_in_time(range.start_ns as int, range.end_ns as int, bind.rate as int, row);
    }
    law_rows_come_at_the_rate(range.start_ns as int, row, bind.rate as int);
    let gone = row_time(range.start_ns as int, row, bind.rate as int) - range.start_ns;
    let rate = bind.rate as int;
    assert(gone >= 0) by (nonlinear_arith)
        requires
            0 <= row * 1_000_000_000 < (gone + 1) * rate,
            rate >= 1,
    ;
}

proof fn lemma_session_names()
    ensures
        ({
            let columns = session_leading_columns();
            &&& columns.len() == 9
            &&& columns[0].name == "session_key"@
            &&& columns[1].name == "time_ns"@ && "time_ns"@.len() == 7
            &&& columns[2].name == "file_time_ns"@ && "file_time_ns"@.len() == 12
            &&& columns[3].name == "source_file"@ && "source_file"@[0] == 's'
            &&& columns[4].name == "video_file_index"@ && "video_file_index"@.len() == 16
            &&& columns[5].name == "video_frame_index"@ && "video_frame_index"@.len() == 17
            &&& columns[6].name == "video_sync_time"@ && "video_sync_time"@.len() == 15
            &&& columns[7].name == "driver_id"@ && "driver_id"@.len() == 9
            &&& columns[8].name == "lap_number"@ && "lap_number"@.len() == 10
            &&& "session_key"@.len() == 11 && "source_file"@.len() == 11
            &&& "session_key"@[1] == 'e' && "source_file"@[1] == 'o'
        }),
{
    reveal_strlit("session_key");
    reveal_strlit("time_ns");
    reveal_strlit("file_time_ns");
    reveal_strlit("source_file");
    reveal_strlit("video_file_index");
    reveal_strlit("video_frame_index");
    reveal_strlit("video_sync_time");
    reveal_strlit("driver_id");
    reveal_strlit("lap_number");
}

/// What a column is called and holds.
pub open spec fn named(name: Seq<char>, kind: ColumnKind) -> ColumnModel {
    ColumnModel { name, kind, unit_tag: None }
}

/// The leading columns of a table of a session and of any other, none of which has a unit.
pub proof fn law_leading_columns(filename: bool, create_date: bool, modified_at: bool)
    ensures
        session_leading_columns() == seq![
            named("session_key"@, ColumnKind::Varchar),
            named("time_ns"@, ColumnKind::Bigint),
            named("file_time_ns"@, ColumnKind::Bigint),
            named("source_file"@, ColumnKind::Varchar),
            named("video_file_index"@, ColumnKind::UInteger),
            named("video_frame_index"@, ColumnKind::UBigint),
            named("video_sync_time"@, ColumnKind::Double),
            named("driver_id"@, ColumnKind::Bigint),
            named("lap_number"@, ColumnKind::Bigint),
        ],
        ({
            let columns = file_leading_columns(filename, create_date, modified_at);
            let count = (if filename {
                1int
            } else {
                0
            }) + (if create_date {
                1int
            } else {
                0
            }) + (if modified_at {
                1int
            } else {
                0
            }) + 1;
            &&& columns.len() == count
            &&& columns.last() == named("time_ns"@, ColumnKind::Bigint)
            &&& filename ==> columns[0] == named("filename"@, ColumnKind::Varchar)
            &&& create_date ==> columns[if filename {
                1
            } else {
                0
            }] == named("create_date"@, ColumnKind::Timestamp)
            &&& modified_at ==> columns[count - 2] == named(
                "modified_at"@,
                ColumnKind::Timestamp,
            )
        }),
{
}

/// Whether an option is set.
pub open spec fn wants(a: Option<bool>, b: Option<bool>) -> bool {
    a == Some(true) || b == Some(true)
}

/// Whether a column has a name.
pub open spec fn has_column(columns: Seq<ColumnModel>, name: Seq<char>) -> bool {
    exists|k: int| 0 <= k < columns.len() && (#[trigger] columns[k]).name == name
}

/// Outside a session each column that is no channel holds what its name says: the file, its
/// dates and the time of the row. The file and its dates are there exactly if they are asked
/// for.
pub proof fn law_leading_columns_hold_what_they_are_named_for(
    bind: WideBind,
    files: Seq<SourceFile>,
    request: WideRequest,
    file: int,
    ordinal: usize,
    column: u64,
    row: int,
)
    requires
        bind.valid(files.len() as int),
        bind.answers(files, request, None),
        0 <= file < files.len(),
        0 <= row < bind.ranges@[file].rows,
        column + bind.names@.len() < columns_of(bind.columns@).len(),
    ensures
        ({
            let columns = columns_of(bind.columns@);
            let leading = columns.take(columns.len() - bind.names@.len());
            let time = row_time(bind.ranges@[file].start_ns as int, row, bind.rate as int);
            let name = leading[column as int].name;
            let cell = bind.cell_at(files[file], file, ordinal, column, row);
            &&& leading.last().name == "time_ns"@
            &&& has_column(leading, "filename"@) <==> wants(
                request.filename,
                request.add_filename_as_column,
            )
            &&& has_column(leading, "create_date"@) <==> wants(
                request.timestamps,
                request.add_create_date_as_column,
            )
            &&& has_column(leading, "modified_at"@) <==> wants(
                request.timestamps,
                request.add_modified_at_as_column,
            )
            &&& name == "time_ns"@ ==> cell == CellModel::Signed(time as i64)
            &&& name == "filename"@ ==> cell == CellModel::Text(files[file].path@)
            &&& name == "create_date"@ ==> cell == CellModel::Signed(files[file].create_date_micros)
            &&& name == "modified_at"@ ==> cell == CellModel::Signed(files[file].modified_at_micros)
        }),
{
    lemma_leading(bind, files, request, None);
    lemma_row_time(bind, files, request, None, file, row);
    reveal_strlit("filename");
    reveal_strlit("create_date");
    reveal_strlit("modified_at");
    reveal_strlit("time_ns");
    assert("create_date"@[0] == 'c' && "modified_at"@[0] == 'm' && "filename"@[0] == 'f'
        && "time_ns"@[0] == 't');
    let columns = columns_of(bind.columns@);
    let leading = columns.take(columns.len() - bind.names@.len());
    let stated = file_leading_columns(
        bind.include_filename,
        bind.include_create_date,
        bind.include_modified_at,
    );
    assert(leading =~= stated);
    let a: int = if bind.include_filename {
        1
    } else {
        0
    };
    let b: int = a + if bind.include_create_date {
        1int
    } else {
        0
    };
    if bind.include_filename {
        assert(leading[0].name == "filename"@);
    }
    if bind.include_create_date {
        assert(leading[a].name == "create_date"@);
    }
    if bind.include_modified_at {
        assert(leading[b].name == "modified_at"@);
    }
}

/// The columns of a table are headed by the names of their channels, or by what the first rule
/// for the name calls it, and hold numbers.
pub proof fn law_columns_are_headed_by_their_channels(
    bind: WideBind,
    files: Seq<SourceFile>,
    request: WideRequest,
    session: Option<Session>,
    i: int,
)
    requires
        bind.valid(files.len() as int),
        bind.answers(files, request, session),
        0 <= i < bind.names@.len(),
    ensures
        ({
            let columns = columns_of(bind.columns@);
            let column = columns[columns.len() - bind.names@.len() + i];
            let name = bind.names@[i]@;
            &&& column.kind is Double
            &&& (forall|r: int|
                is_first_rule(bind.map@, name, r) ==> bind.map@[r].target is None) ==> column.name
                == name
            &&& forall|r: int| #[trigger]
                is_first_rule(bind.map@, name, r) && bind.map@[r].target is Some ==> column.name
                    == bind.map@[r].target->0
            &&& column.unit_tag is Some ==> request.unit_tags == Some(true)
            &&& column.unit_tag == unit_tag_of(
                channels_of(files),
                bind.map@,
                name,
                request.unit_tags == Some(true),
            )
        }),
{
    let name = bind.names@[i]@;
    assert(texts(bind.names@)[i] == name);
    lemma_rule(bind.map@, name);
    lemma_leading(bind, files, request, session);
    if let Some(rule) = rule_named(bind.map@, name) {
        let r = choose|r: int| #[trigger]
            is_first_rule(bind.map@, name, r) && bind.map@[r] == rule;
        assert(is_first_rule(bind.map@, name, r));
    }
}

/// The unit of a channel, by the rules: that of the first rule for it that names it, or its own.
pub open spec fn ruled_unit(rules: Seq<Rule>, channel: SourceChannel) -> Seq<char> {
    mapped_unit(rules, channel.name@, channel.unit@, channel.unit_source).0
}

/// Whether a channel's name is a given one and its unit is another than a given one.
pub open spec fn has_other_unit(
    channels: Seq<SourceChannel>,
    rules: Seq<Rule>,
    name: Seq<char>,
    unit: Seq<char>,
    c: int,
) -> bool {
    &&& 0 <= c < channels.len()
    &&& lower(channels[c].name@) == lower(name)
    &&& ruled_unit(rules, channels[c]) != unit
}

/// A column carries a unit exactly if units are asked for, all channels of its name have that
/// unit, and it is not empty.
pub proof fn law_a_tag_is_the_only_unit(
    channels: Seq<SourceChannel>,
    rules: Seq<Rule>,
    name: Seq<char>,
    tagged: bool,
    unit: Seq<char>,
)
    ensures
        unit_tag_of(channels, rules, name, tagged) == Some(unit) <==> {
            &&& tagged
            &&& unit.len() > 0
            &&& !lacks(channels, name)
            &&& forall|c: int| !#[trigger] has_other_unit(channels, rules, name, unit, c)
        },
{
    lemma_units_of(channels, rules, name);
    let units = units_of(channels, rules, name);
    if unit_tag_of(channels, rules, name, tagged) == Some(unit) {
        assert(units.contains(units[0]));
        assert forall|c: int| !#[trigger] has_other_unit(channels, rules, name, unit, c) by {
            if has_other_unit(channels, rules, name, unit, c) {
                assert(units.contains(ruled_unit(rules, channels[c])));
            }
        }
    }
    if tagged && unit.len() > 0 && !lacks(channels, name) && (forall|c: int|
        !#[trigger] has_other_unit(channels, rules, name, unit, c)) {
        let d = choose|d: int|
            0 <= d < channels.len() && lower((#[trigger] channels[d]).name@) == lower(name);
        assert(units.contains(ruled_unit(rules, channels[d])));
        assert forall|k: int| 0 <= k < units.len() implies units[k] == unit by {
            assert(units.contains(units[k]));
            let c = choose|c: int|
                0 <= c < channels.len() && lower((#[trigger] channels[c]).name@) == lower(name)
                    && ruled_unit(rules, channels[c]) == units[k];
            assert(!has_other_unit(channels, rules, name, unit, c));
        }
        if units.len() > 1 {
            assert(units[0] == units[1]);
        }
    }
}

proof fn lemma_units_of(channels: Seq<SourceChannel>, rules: Seq<Rule>, name: Seq<char>)
    ensures
        ({
            let units = units_of(channels, rules, name);
            &&& forall|i: int, j: int|
                0 <= i < j < units.len() ==> #[trigger] units[i] != #[trigger] units[j]
            &&& forall|c: int|
                0 <= c < channels.len() && lower((#[trigger] channels[c]).name@) == lower(name)
                    ==> units.contains(ruled_unit(rules, channels[c]))
            &&& forall|unit: Seq<char>| #[trigger]
                units.contains(unit) ==> exists|c: int|
                    0 <= c < channels.len() && lower((#[trigger] channels[c]).name@) == lower(name)
                        && ruled_unit(rules, channels[c]) == unit
        }),
    decreases channels.len(),
{
    let units = units_of(channels, rules, name);
    if channels.len() > 0 {
        let front = channels.drop_last();
        let before = units_of(front, rules, name);
        lemma_units_of(front, rules, name);
        let last = ruled_unit(rules, channels.last());
        let grows = lower(channels.last().name@) == lower(name) && !before.contains(last);
        if grows {
            assert(units == before.push(last));
            assert(units[units.len() - 1] == last);
        }
        assert forall|u: Seq<char>| before.contains(u) implies #[trigger] units.contains(u) by {
            let k = choose|k: int| 0 <= k < before.len() && before[k] == u;
            assert(units[k] == u);
        }
        assert forall|c: int|
            0 <= c < channels.len() && lower((#[trigger] channels[c]).name@) == lower(
                name,
            ) implies units.contains(ruled_unit(rules, channels[c])) by {
            if c < front.len() {
                assert(front[c] == channels[c]);
            }
        }
        assert forall|u: Seq<char>| #[trigger] units.contains(u) implies exists|c: int|
            0 <= c < channels.len() && lower((#[trigger] channels[c]).name@) == lower(name)
                && ruled_unit(rules, channels[c]) == u by {
            if before.contains(u) {
                let c = choose|c: int|
                    0 <= c < front.len() && lower((#[trigger] front[c]).name@) == lower(name)
                        && ruled_unit(rules, front[c]) == u;
                assert(channels[c] == front[c]);
            } else {
                assert(channels[channels.len() - 1] == channels.last());
                let k = choose|k: int| 0 <= k < units.len() && units[k] == u;
                if k < before.len() {
                    assert(before[k] == u);
                }
            }
        }
    }
}

// ---------------------------------------------------------------------------------------
// Names
// ---------------------------------------------------------------------------------------
/// Columns come in the order in which their names first occur: further channels add columns
/// behind those that are there, at most one each, spelled as the channel that adds it.
pub proof fn law_columns_come_as_names_occur(
    channels: Seq<SourceChannel>,
    channel: SourceChannel,
    wanted: Seq<Seq<char>>,
)
    ensures
        ({
            let before = wide_names(channels, wanted);
            let after = wide_names(channels.push(channel), wanted);
            &&& after == before || after == before.push(channel.name@)
            &&& before.len() < after.len() ==> channel.sample_count > 0
        }),
{
    assert(channels.push(channel).drop_last() =~= channels);
}

/// A channel with samples that is asked for and has a name that no column has yet adds one.
pub proof fn law_a_new_name_adds_a_column(
    channels: Seq<SourceChannel>,
    channel: SourceChannel,
    wanted: Seq<Seq<char>>,
)
    requires
        channel.sample_count > 0,
        wanted.len() == 0 || wanted.contains(lower(channel.name@)),
        forall|c: int|
            0 <= c < channels.len() ==> lower((#[trigger] channels[c]).name@) != lower(
                channel.name@,
            ),
    ensures
        wide_names(channels.push(channel), wanted) == wide_names(channels, wanted).push(
            channel.name@,
        ),
{
    let all = channels.push(channel);
    assert(all.drop_last() =~= channels);
    let before = wide_names(channels, wanted);
    if crate::filter::has_name(before, lower(channel.name@)) {
        crate::wide::law_wide_names_are_complete(channels, wanted, lower(channel.name@));
    }
}

/// Channels are told by their letters and digits alone, without regard to case.
pub proof fn law_names_are_told_by_letters_and_digits(name: Seq<char>)
    ensures
        normalized(name) == lower(name.filter(|c: char| is_ascii_alphanumeric(c))),
    decreases name.len(),
{
    reveal(Seq::filter);
    if name.len() > 0 {
        law_names_are_told_by_letters_and_digits(name.drop_last());
        let kept = name.drop_last().filter(|c: char| is_ascii_alphanumeric(c));
        if is_ascii_alphanumeric(name.last()) {
            crate::laws::text::law_lowering_goes_by_characters(kept, seq![name.last()]);
            assert(kept.push(name.last()) =~= kept + seq![name.last()]);
            crate::laws::text::law_lowering_keeps_the_length(seq![name.last()]);
        }
    }
    assert(normalized(name) =~= lower(name.filter(|c: char| is_ascii_alphanumeric(c))));
}

/// Whether a channel with samples has one of some names.
pub open spec fn is_called(channel: SourceChannel, names: Seq<Seq<char>>) -> bool {
    channel.sample_count > 0 && names.contains(normalized(channel.name@))
}

/// The driver's and the lap's channel are the first with samples that have one of the names
/// that loggers give them.
pub proof fn law_driver_and_lap_are_the_first_so_called(
    channels: Seq<SourceChannel>,
    names: Seq<Seq<char>>,
)
    requires
        channels.len() <= usize::MAX,
    ensures
        match first_answering(channels, names, 0) {
            Some(c) => {
                &&& c < channels.len()
                &&& is_called(channels[c as int], names)
                &&& forall|d: int| 0 <= d < c ==> !is_called(#[trigger] channels[d], names)
            },
            None => forall|d: int|
                0 <= d < channels.len() ==> !is_called(#[trigger] channels[d], names),
        },
        driver_names() == seq!["driverid"@, "driver"@, "driverindex"@],
        lap_names() == seq![
            "lapnumber"@,
            "lapnum"@,
            "lapcount"@,
            "lapcounter"@,
            "currentlap"@,
            "lap"@,
        ],
{
    lemma_first_answering(channels, names, 0);
}

proof fn lemma_first_answering(channels: Seq<SourceChannel>, names: Seq<Seq<char>>, i: int)
    requires
        channels.len() <= usize::MAX,
        0 <= i <= channels.len(),
    ensures
        match first_answering(channels, names, i) {
            Some(c) => {
                &&& i <= c < channels.len()
                &&& is_called(channels[c as int], names)
                &&& forall|d: int| i <= d < c ==> !is_called(#[trigger] channels[d], names)
            },
            None => forall|d: int|
                i <= d < channels.len() ==> !is_called(#[trigger] channels[d], names),
        },
    decreases channels.len() - i,
{
    if i < channels.len() && !answers_to(channels[i], names) {
        lemma_first_answering(channels, names, i + 1);
    }
}

/// A table's rate is the one that is asked for, a hundred rows a second where none is, and its
/// names, drivers and laps are those of its files' channels.
pub proof fn law_a_table_is_of_its_files(
    bind: WideBind,
    files: Seq<SourceFile>,
    request: WideRequest,
    session: Option<Session>,
    file: int,
)
    requires
        bind.valid(files.len() as int),
        bind.answers(files, request, session),
        0 <= file < files.len(),
    ensures
        texts(bind.names@) == wide_names(
            channels_of(files),
            requested_names(optional_text(request.channels)),
        ),
        bind.rate == (match request.rate {
            Some(rate) => rate,
            None => 100,
        }),
        bind.driver_channels@[file] == first_answering(
            files[file].channels@,
            seq!["driverid"@, "driver"@, "driverindex"@],
            0,
        ),
        bind.lap_channels@[file] == first_answering(
            files[file].channels@,
            seq!["lapnumber"@, "lapnum"@, "lapcount"@, "lapcounter"@, "currentlap"@, "lap"@],
            0,
        ),
        bind.total_rows == rows_of(bind.ranges@),
        bind.session_key is Some <==> session is Some,
        session is Some ==> bind.session_key->0@ == session->0.key@,
{
}

/// A wide table is refused exactly if the rate is not between 1 and 5000 rows a second, if the
/// window ends before it starts, if the interpolation is none that there is, if a name that is
/// asked for has no channel with samples, or if the map is refused; the message is that of the
/// first of these.
pub proof fn law_refused_tables(
    files: Seq<SourceFile>,
    kind: Seq<char>,
    request: WideRequest,
    map: Result<Seq<Rule>, Seq<char>>,
)
    ensures
        ({
            let refusal = wide_refusal(files, kind, request, map);
            let wanted = requested_names(optional_text(request.channels));
            let names = wide_names(channels_of(files), wanted);
            let missing = wanted.filter(|key: Seq<char>| is_absent(names, key));
            if request.rate is Some && (request.rate->0 < 1 || request.rate->0 > 5000) {
                refusal == Some("rate must be between 1 and 5000 Hz"@)
            } else if asked_end(request) < asked_start(request) {
                refusal == Some("end_ns must be greater than or equal to start_ns"@)
            } else if request.interpolate is Some && lower(request.interpolate->0@) != "linear"@
                && lower(request.interpolate->0@) != "previous"@ {
                refusal == Some("interpolate must be 'previous' or 'linear'"@)
            } else if missing.len() > 0 {
                refusal == Some(kind + " channel(s) not found: "@ + join(missing, ", "@))
            } else {
                refusal == map_refusal(map, names_of(channels_of(files)))
            }
        }),
{
    let wanted = requested_names(optional_text(request.channels));
    law_missing_names_are_told(wanted, wide_names(channels_of(files), wanted));
}

} // verus!
