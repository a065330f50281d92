//! Resampling: all channels side by side on one clock.
use crate::cell::{text_cell, Cell, CellModel};
use crate::channel_map::{mapped_conversion, mapped_name, mapped_unit, ChannelMap, Rule};
use crate::filter::{
    has_name, holds_ignoring_case, names_missing, parse_channel_filter, requested_names, selects,
    ChannelFilter,
};
use crate::number::Affine;
use crate::samples::{
    check_found, check_map, end_of, map_refusal, not_found, quotient_up, start_of, stated_rules,
    window, Window, VECTOR_SIZE,
};
use crate::schema::{
    columns_of, file_columns, file_leading_columns, handed_out, law_portions_are_handed_out_once,
    session_columns, session_leading_columns, Column, ColumnKind, ColumnModel,
};
use crate::source::{channel_names, channels_of, names_of, SourceChannel, SourceFile};
use crate::text::{
    ascii_lower, is_ascii_alphanumeric, lower, lower_char, optional_text, same_ignoring_case,
    texts, to_lower,
};
use vstd::prelude::*;

verus! {

/// The number of nanoseconds of a second.
pub const SECOND_NS: u64 = 1_000_000_000;

/// The number of columns that a table of a session begins with.
pub const SESSION_FIXED_COLUMNS: u64 = 9;

/// What a caller asks of a wide table.
#[derive(Debug)]
pub struct WideRequest {
    pub rate: Option<i64>,
    pub start_ns: Option<i64>,
    pub end_ns: Option<i64>,
    pub interpolate: Option<String>,
    pub channels: Option<String>,
    pub filename: Option<bool>,
    pub add_filename_as_column: Option<bool>,
    pub timestamps: Option<bool>,
    pub add_create_date_as_column: Option<bool>,
    pub add_modified_at_as_column: Option<bool>,
    pub unit_tags: Option<bool>,
}

/// The session that the files of a wide table make up.
#[derive(Debug)]
pub struct Session {
    pub key: String,
    /// When the session starts.
    pub base_ns: u64,
    /// For each file, how far its clock is ahead, if known.
    pub clock_offsets_ns: Vec<Option<i128>>,
}

/// What a file contributes to a wide table.
#[derive(Debug, Clone, Copy, PartialEq, Eq, Structural)]
pub struct WideRange {
    pub start_ns: u64,
    pub end_ns: u64,
    pub rows: u64,
}

/// A portion of the rows of a file.
#[derive(Debug, Clone, Copy, PartialEq, Eq, Structural)]
pub struct WideSegment {
    pub file: usize,
    pub row_start: u64,
    pub len: u64,
}

/// A wide table.
#[derive(Debug)]
pub struct WideBind {
    pub names: Vec<String>,
    /// For each file and each name, the channel.
    pub source_channels: Vec<Vec<Option<usize>>>,
    pub ranges: Vec<WideRange>,
    pub total_rows: u64,
    pub rate: u64,
    pub linear: bool,
    pub include_filename: bool,
    pub include_create_date: bool,
    pub include_modified_at: bool,
    pub map: ChannelMap,
    /// For each name, how its values change.
    pub conversions: Vec<Option<Affine>>,
    pub columns: Vec<Column>,
    /// The key of the session, in a table of one.
    pub session_key: Option<String>,
    /// For each file, where it starts in the session.
    pub session_offsets_ns: Vec<i128>,
    pub driver_channels: Vec<Option<usize>>,
    pub lap_channels: Vec<Option<usize>>,
}

// ---------------------------------------------------------------------------------------
// Channels by name
// ---------------------------------------------------------------------------------------
/// The names of the columns: those of the selected channels with samples, each once whatever
/// its case, in the spelling that comes up first.
pub open spec fn wide_names(channels: Seq<SourceChannel>, wanted: Seq<Seq<char>>) -> Seq<Seq<char>>
    decreases channels.len(),
{
    if channels.len() == 0 {
        Seq::empty()
    } else {
        let before = wide_names(channels.drop_last(), wanted);
        let channel = channels.last();
        if channel.sample_count == 0 || !selects(wanted, channel.name@) || has_name(
            before,
            lower(channel.name@),
        ) {
            before
        } else {
            before.push(channel.name@)
        }
    }
}

/// The last channel with a name.
pub open spec fn last_named(channels: Seq<SourceChannel>, name: Seq<char>) -> Option<usize>
    decreases channels.len(),
{
    if channels.len() == 0 {
        None
    } else if lower(channels.last().name@) == lower(name) {
        Some((channels.len() - 1) as usize)
    } else {
        last_named(channels.drop_last(), name)
    }
}

/// The letters and digits of a name, in small letters.
pub open spec fn normalized(name: Seq<char>) -> Seq<char>
    decreases name.len(),
{
    if name.len() == 0 {
        Seq::empty()
    } else if is_ascii_alphanumeric(name.last()) {
        normalized(name.drop_last()).push(ascii_lower(name.last()))
    } else {
        normalized(name.drop_last())
    }
}

/// Whether a channel has samples and one of the names.
pub open spec fn answers_to(channel: SourceChannel, names: Seq<Seq<char>>) -> bool {
    channel.sample_count > 0 && names.contains(normalized(channel.name@))
}

/// The first channel from the `i`-th on that has samples and one of the names.
pub open spec fn first_answering(
    channels: Seq<SourceChannel>,
    names: Seq<Seq<char>>,
    i: int,
) -> Option<usize>
    decreases channels.len() - i,
{
    if i < 0 || i >= channels.len() {
        None
    } else if answers_to(channels[i], names) {
        Some(i as usize)
    } else {
        first_answering(channels, names, i + 1)
    }
}

/// The names under which the driver is recorded.
pub open spec fn driver_names() -> Seq<Seq<char>> {
    seq!["driverid"@, "driver"@, "driverindex"@]
}

/// The names under which the lap is recorded.
pub open spec fn lap_names() -> Seq<Seq<char>> {
    seq!["lapnumber"@, "lapnum"@, "lapcount"@, "lapcounter"@, "currentlap"@, "lap"@]
}

/// The letters and digits of a name, in small letters.
pub fn normalized_channel_name(name: &str) -> (normal: String)
    ensures
        normal@ == normalized(name@),
{
    let mut normal = String::new();
    for c in it: name.chars()
        invariant
            it.seq() == name@,
            normal@ == normalized(name@.take(it.index() as int)),
    {
        assert(name@.take(it.index() + 1).drop_last() =~= name@.take(it.index() as int));
        if ('0' <= c && c <= '9') || ('A' <= c && c <= 'Z') || ('a' <= c && c <= 'z') {
            normal.push(lower_char(c));
        }
    }
    assert(name@.take(name@.len() as int) =~= name@);
    normal
}

/// The first channel that has samples and one of the names.
pub fn matching_channel(channels: &Vec<SourceChannel>, names: &Vec<String>) -> (found: Option<
    usize,
>)
    ensures
        found == first_answering(channels@, texts(names@), 0),
{
    let mut i: usize = 0;
    while i < channels.len()
        invariant
            i <= channels@.len(),
            first_answering(channels@, texts(names@), 0) == first_answering(
                channels@,
                texts(names@),
                i as int,
            ),
        decreases channels@.len() - i,
    {
        if channels[i].sample_count > 0 {
            let name = normalized_channel_name(channels[i].name.as_str());
            if crate::filter::holds(names, name.as_str()) {
                return Some(i);
            }
        }
        i = i + 1;
    }
    None
}

/// The last channel with a name.
fn find_last_named(channels: &Vec<SourceChannel>, name: &str) -> (found: Option<usize>)
    ensures
        found == last_named(channels@, name@),
        found matches Some(i) ==> i < channels@.len(),
{
    let key = to_lower(name);
    let mut i: usize = channels.len();
    assert(channels@.take(i as int) =~= channels@);
    while i > 0
        invariant
            i <= channels@.len(),
            key@ == lower(name@),
            last_named(channels@, name@) == last_named(channels@.take(i as int), name@),
        decreases i,
    {
        assert(channels@.take(i as int).drop_last() =~= channels@.take(i - 1));
        if to_lower(channels[i - 1].name.as_str()) == key {
            return Some(i - 1);
        }
        i = i - 1;
    }
    None
}

/// The names of the columns for the channels of the files.
fn collect_names(files: &Vec<SourceFile>, filter: &ChannelFilter) -> (names: Vec<String>)
    ensures
        texts(names@) == wide_names(channels_of(files@), filter@),
{
    let mut names: Vec<String> = Vec::new();
    let mut f: usize = 0;
    assert(channels_of(files@.take(0)).len() == 0);
    assert(texts(names@) =~= Seq::empty());
    while f < files.len()
        invariant
            f <= files@.len(),
            texts(names@) == wide_names(channels_of(files@.take(f as int)), filter@),
        decreases files@.len() - f,
    {
        let channels = &files[f].channels;
        let ghost before = channels_of(files@.take(f as int));
        let mut c: usize = 0;
        assert(before + channels@.take(0) =~= before);
        while c < channels.len()
            invariant
                c <= channels@.len(),
                texts(names@) == wide_names(before + channels@.take(c as int), filter@),
            decreases channels@.len() - c,
        {
            let ghost upto = before + channels@.take(c + 1);
            assert(upto.drop_last() =~= before + channels@.take(c as int));
            assert(upto.last() == channels@[c as int]);
            let channel = &channels[c];
            let key = to_lower(channel.name.as_str());
            if channel.sample_count != 0 && filter.takes(channel.name.as_str())
                && !holds_ignoring_case(&names, key.as_str()) {
                let ghost earlier = names@;
                names.push(channel.name.clone());
                assert(texts(names@) =~= texts(earlier).push(channel.name@));
            }
            c = c + 1;
        }
        assert(channels@.take(c as int) =~= channels@);
        assert(files@.take(f + 1).drop_last() =~= files@.take(f as int));
        f = f + 1;
    }
    assert(files@.take(f as int) =~= files@);
    names
}

/// The columns of a wide table have different names, whatever their case.
pub proof fn law_wide_names_differ(channels: Seq<SourceChannel>, wanted: Seq<Seq<char>>)
    ensures
        forall|i: int, j: int|
            0 <= i < j < wide_names(channels, wanted).len() ==> lower(
                #[trigger] wide_names(channels, wanted)[i],
            ) != lower(#[trigger] wide_names(channels, wanted)[j]),
    decreases channels.len(),
{
    if channels.len() > 0 {
        law_wide_names_differ(channels.drop_last(), wanted);
        let before = wide_names(channels.drop_last(), wanted);
        let names = wide_names(channels, wanted);
        assert forall|i: int, j: int| 0 <= i < j < names.len() implies lower(#[trigger] names[i])
            != lower(#[trigger] names[j]) by {
            assert(names[i] == before[i]);
            if j < before.len() {
                assert(names[j] == before[j]);
            }
        }
    }
}

/// A wide table has a column for a name if and only if a selected channel with samples has
/// that name.
pub proof fn law_wide_names_are_complete(
    channels: Seq<SourceChannel>,
    wanted: Seq<Seq<char>>,
    key: Seq<char>,
)
    ensures
        has_name(wide_names(channels, wanted), key) <==> exists|i: int|
            0 <= i < channels.len() && lower((#[trigger] channels[i]).name@) == key
                && channels[i].sample_count > 0 && selects(wanted, channels[i].name@),
    decreases channels.len(),
{
    let names = wide_names(channels, wanted);
    if channels.len() > 0 {
        let front = channels.drop_last();
        let before = wide_names(front, wanted);
        law_wide_names_are_complete(front, wanted, key);
        if has_name(names, key) {
            let n = choose|n: int| 0 <= n < names.len() && lower(#[trigger] names[n]) == key;
            if n < before.len() {
                assert(names[n] == before[n]);
                assert(has_name(before, key));
                let i = choose|i: int|
                    0 <= i < front.len() && lower((#[trigger] front[i]).name@) == key
                        && front[i].sample_count > 0 && selects(wanted, front[i].name@);
                assert(channels[i] == front[i]);
            } else {
                assert(lower(channels[channels.len() - 1].name@) == key);
            }
        }
        if exists|i: int|
            0 <= i < channels.len() && lower((#[trigger] channels[i]).name@) == key
                && channels[i].sample_count > 0 && selects(wanted, channels[i].name@) {
            let i = choose|i: int|
                0 <= i < channels.len() && lower((#[trigger] channels[i]).name@) == key
                    && channels[i].sample_count > 0 && selects(wanted, channels[i].name@);
            if i < front.len() {
                assert(front[i] == channels[i]);
                assert(has_name(before, key));
            }
            if has_name(before, key) {
                let n = choose|n: int| 0 <= n < before.len() && lower(#[trigger] before[n]) == key;
                assert(names[n] == before[n]);
            } else {
                assert(names == before.push(channels.last().name@));
                assert(names[before.len() as int] == channels.last().name@);
            }
        }
    }
}

/// A file's column has the samples of the last of its channels with that name; it has none if
/// and only if there is no such channel.
pub proof fn law_columns_have_their_channels(channels: Seq<SourceChannel>, name: Seq<char>)
    requires
        channels.len() <= usize::MAX,
    ensures
        match last_named(channels, name) {
            Some(i) => i < channels.len() && lower(channels[i as int].name@) == lower(name)
                && forall|k: int|
                i < k < channels.len() ==> lower((#[trigger] channels[k]).name@) != lower(name),
            None => forall|k: int|
                0 <= k < channels.len() ==> lower((#[trigger] channels[k]).name@) != lower(name),
        },
    decreases channels.len(),
{
    if channels.len() > 0 && lower(channels.last().name@) != lower(name) {
        let front = channels.drop_last();
        law_columns_have_their_channels(front, name);
        assert forall|k: int|
            0 <= k < channels.len() && (last_named(front, name) matches Some(i) ==> i
                < k) implies lower((#[trigger] channels[k]).name@) != lower(name) by {
            if k < front.len() {
                assert(front[k] == channels[k]);
            }
        }
    }
}

// ---------------------------------------------------------------------------------------
// The clock
// ---------------------------------------------------------------------------------------
/// The number of rows between two moments.
pub open spec fn rows_between(start_ns: int, end_ns: int, rate: int) -> int {
    if end_ns <= start_ns {
        0
    } else {
        quotient_up((end_ns - start_ns) * rate, 1_000_000_000)
    }
}

/// The time of a row.
pub open spec fn row_time(start_ns: int, row: int, rate: int) -> int {
    start_ns + row * 1_000_000_000 / rate
}

/// A moment of the session on the clock of a file.
pub open spec fn on_file_clock(time_ns: u64, offset_ns: i128) -> u64 {
    if 0 <= offset_ns <= time_ns {
        (time_ns - offset_ns) as u64
    } else if time_ns < offset_ns <= u64::MAX {
        0
    } else {
        time_ns
    }
}

/// The largest duration of the channels that the names stand for.
pub open spec fn longest(channels: Seq<SourceChannel>, names: Seq<Seq<char>>) -> u64
    decreases names.len(),
{
    if names.len() == 0 {
        0
    } else {
        let before = longest(channels, names.drop_last());
        match last_named(channels, names.last()) {
            Some(i) => if channels[i as int].duration_ns > before {
                channels[i as int].duration_ns
            } else {
                before
            },
            None => before,
        }
    }
}

/// What a file contributes: the rows of the span that is asked for, up to the end of its
/// longest channel.
pub open spec fn range_of(
    channels: Seq<SourceChannel>,
    names: Seq<Seq<char>>,
    start_ns: u64,
    end_ns: u64,
    rate: u64,
) -> WideRange {
    let duration = longest(channels, names);
    let end = if end_ns < duration {
        end_ns
    } else {
        duration
    };
    WideRange {
        start_ns,
        end_ns: end,
        rows: rows_between(start_ns as int, end as int, rate as int) as u64,
    }
}

/// The number of rows of all ranges, cut off at the largest 64-bit number.
pub open spec fn rows_of(ranges: Seq<WideRange>) -> u64
    decreases ranges.len(),
{
    if ranges.len() == 0 {
        0
    } else {
        crate::pds::file::saturated(rows_of(ranges.drop_last()) + ranges.last().rows)
    }
}

proof fn lemma_rows_bound(start_ns: int, end_ns: int, rate: int)
    requires
        0 <= start_ns,
        end_ns <= i64::MAX,
        1 <= rate <= 5000,
    ensures
        0 <= rows_between(start_ns, end_ns, rate) <= i64::MAX,
{
    if end_ns > start_ns {
        let x = (end_ns - start_ns) * rate;
        assert(0 <= x <= 5000 * 0x7fff_ffff_ffff_ffff) by (nonlinear_arith)
            requires
                x == (end_ns - start_ns) * rate,
                0 < end_ns - start_ns <= 0x7fff_ffff_ffff_ffff,
                1 <= rate <= 5000,
        ;
    }
}

/// A row stands in the table if and only if its time lies before the end.
pub proof fn law_rows_end_in_time(start_ns: int, end_ns: int, rate: int, row: int)
    requires
        0 <= row,
        1 <= rate,
        start_ns <= end_ns,
    ensures
        row < rows_between(start_ns, end_ns, rate) <==> row_time(start_ns, row, rate) < end_ns,
{
    let gap = end_ns - start_ns;
    let n = row * 1_000_000_000;
    let whole = gap * rate;
    assert(whole >= 0) by (nonlinear_arith)
        requires
            whole == gap * rate,
            gap >= 0,
            rate >= 1,
    ;
    assert(n / rate < gap <==> n < whole) by (nonlinear_arith)
        requires
            rate >= 1,
            n >= 0,
            whole == gap * rate,
    ;
    if gap > 0 {
        assert(row < quotient_up(whole, 1_000_000_000) <==> n < whole);
    } else {
        assert(n / rate >= 0) by (nonlinear_arith)
            requires
                n >= 0,
                rate >= 1,
        ;
    }
}

/// Time goes on from row to row, at least by a fifth of a millisecond at the rates allowed.
pub proof fn law_row_times_increase(start_ns: int, a: int, b: int, rate: int)
    requires
        0 <= a < b,
        1 <= rate <= 5000,
    ensures
        row_time(start_ns, a, rate) + 200_000 <= row_time(start_ns, b, rate),
{
    let x = a * 1_000_000_000;
    let y = b * 1_000_000_000;
    assert(x / rate + 200_000 <= y / rate) by (nonlinear_arith)
        requires
            x + 1_000_000_000 <= y,
            1 <= rate <= 5000,
            x >= 0,
    ;
}

/// The number of rows between two moments.
fn count_rows(start_ns: u64, end_ns: u64, rate: u64) -> (rows: u64)
    requires
        end_ns <= i64::MAX,
        1 <= rate <= 5000,
    ensures
        rows == rows_between(start_ns as int, end_ns as int, rate as int),
{
    if end_ns <= start_ns {
        return 0;
    }
    proof {
        lemma_rows_bound(start_ns as int, end_ns as int, rate as int);
        assert((end_ns - start_ns) * rate <= 5000 * 0x7fff_ffff_ffff_ffff) by (nonlinear_arith)
            requires
                0 < end_ns - start_ns <= 0x7fff_ffff_ffff_ffff,
                1 <= rate <= 5000,
        ;
    }
    let product: u128 = (end_ns - start_ns) as u128 * rate as u128;
    ((product + 999_999_999) / 1_000_000_000) as u64
}

/// The time of a row that stands in the table.
pub fn time_of_row(range: &WideRange, row: u64, rate: u64) -> (time_ns: u64)
    requires
        1 <= rate <= 5000,
        range.end_ns <= i64::MAX,
        row < range.rows,
        range.rows == rows_between(range.start_ns as int, range.end_ns as int, rate as int),
    ensures
        time_ns == row_time(range.start_ns as int, row as int, rate as int),
        time_ns < range.end_ns,
{
    proof {
        law_rows_end_in_time(
            range.start_ns as int,
            range.end_ns as int,
            rate as int,
            row as int,
        );
    }
    let elapsed: u128 = row as u128 * 1_000_000_000u128 / rate as u128;
    (range.start_ns as u128 + elapsed) as u64
}

/// A moment of the session on the clock of a file.
fn to_file_clock(time_ns: u64, offset_ns: i128) -> (local_ns: u64)
    ensures
        local_ns == on_file_clock(time_ns, offset_ns),
{
    let offset: u64 = if 0 <= offset_ns && offset_ns <= u64::MAX as i128 {
        offset_ns as u64
    } else {
        0
    };
    time_ns.saturating_sub(offset)
}

/// The largest duration of some channels.
fn find_longest(channels: &Vec<SourceChannel>, names: &Vec<String>) -> (duration: u64)
    ensures
        duration == longest(channels@, texts(names@)),
{
    let ghost all = texts(names@);
    let mut duration: u64 = 0;
    let mut i: usize = 0;
    assert(longest(channels@, all.take(0)) == 0);
    while i < names.len()
        invariant
            i <= names@.len(),
            all == texts(names@),
            duration == longest(channels@, all.take(i as int)),
        decreases names@.len() - i,
    {
        assert(all.take(i + 1).drop_last() =~= all.take(i as int));
        if let Some(c) = find_last_named(channels, names[i].as_str()) {
            if channels[c].duration_ns > duration {
                duration = channels[c].duration_ns;
            }
        }
        i = i + 1;
    }
    assert(all.take(i as int) =~= all);
    duration
}

/// What a file contributes.
fn measure_range(
    channels: &Vec<SourceChannel>,
    names: &Vec<String>,
    start_ns: u64,
    end_ns: u64,
    rate: u64,
) -> (range: WideRange)
    requires
        end_ns <= i64::MAX,
        1 <= rate <= 5000,
    ensures
        range == range_of(channels@, texts(names@), start_ns, end_ns, rate),
        range_valid(range, rate),
{
    let duration: u64 = find_longest(channels, names);
    let end: u64 = if end_ns < duration {
        end_ns
    } else {
        duration
    };
    let rows: u64 = count_rows(start_ns, end, rate);
    WideRange { start_ns, end_ns: end, rows }
}

/// A range counts its own rows.
pub open spec fn range_valid(range: WideRange, rate: u64) -> bool {
    &&& range.end_ns <= i64::MAX
    &&& range.rows == rows_between(range.start_ns as int, range.end_ns as int, rate as int)
}

// ---------------------------------------------------------------------------------------
// What a wide table is
// ---------------------------------------------------------------------------------------
/// The rate that is asked for.
pub open spec fn rate_of(rate: Option<i64>) -> i64 {
    match rate {
        Some(rate) => rate,
        None => 100,
    }
}

/// The interpolation that is asked for.
pub open spec fn interpolation_of(interpolate: Option<String>) -> Seq<char> {
    match interpolate {
        Some(text) => lower(text@),
        None => "linear"@,
    }
}

/// Whether an option is switched on.
pub open spec fn is_on(option: Option<bool>) -> bool {
    option == Some(true)
}

/// What is wrong with a request, if anything is: the first thing in this order.
pub open spec fn wide_refusal(
    files: Seq<SourceFile>,
    kind: Seq<char>,
    request: WideRequest,
    map: Result<Seq<Rule>, Seq<char>>,
) -> Option<Seq<char>> {
    let wanted = requested_names(optional_text(request.channels));
    let interpolation = interpolation_of(request.interpolate);
    let missing = names_missing(wanted, wide_names(channels_of(files), wanted));
    if !(1 <= rate_of(request.rate) <= 5000) {
        Some("rate must be between 1 and 5000 Hz"@)
    } else if end_of(request.end_ns) < start_of(request.start_ns) {
        Some("end_ns must be greater than or equal to start_ns"@)
    } else if interpolation != "previous"@ && interpolation != "linear"@ {
        Some("interpolate must be 'previous' or 'linear'"@)
    } else if missing.len() > 0 {
        Some(not_found(kind, missing))
    } else {
        map_refusal(map, names_of(channels_of(files)))
    }
}

/// Where a file starts in a session.
pub open spec fn session_offset(session: Session, file: int) -> int {
    (match session.clock_offsets_ns@[file] {
        Some(offset) => offset as int,
        None => 0,
    }) - session.base_ns
}

/// There is a clock for each of the files, and it can be reckoned with.
pub open spec fn session_valid(session: Session, files: int) -> bool {
    &&& session.clock_offsets_ns@.len() == files
    &&& forall|f: int|
        0 <= f < files ==> i128::MIN <= #[trigger] session_offset(session, f) <= i128::MAX
            - u64::MAX
}

/// The different units of the channels with a name.
pub open spec fn units_of(channels: Seq<SourceChannel>, rules: Seq<Rule>, name: Seq<char>) -> Seq<
    Seq<char>,
>
    decreases channels.len(),
{
    if channels.len() == 0 {
        Seq::empty()
    } else {
        let before = units_of(channels.drop_last(), rules, name);
        let channel = channels.last();
        let unit = mapped_unit(rules, channel.name@, channel.unit@, channel.unit_source).0;
        if lower(channel.name@) == lower(name) && !before.contains(unit) {
            before.push(unit)
        } else {
            before
        }
    }
}

/// The unit that a column carries: none unless all its channels have the same, and have one.
pub open spec fn unit_tag_of(
    channels: Seq<SourceChannel>,
    rules: Seq<Rule>,
    name: Seq<char>,
    tagged: bool,
) -> Option<Seq<char>> {
    let units = units_of(channels, rules, name);
    if tagged && units.len() == 1 && units[0].len() > 0 {
        Some(units[0])
    } else {
        None
    }
}

/// The columns of a wide table.
pub open spec fn wide_columns(
    leading: Seq<ColumnModel>,
    channels: Seq<SourceChannel>,
    rules: Seq<Rule>,
    names: Seq<Seq<char>>,
    tagged: bool,
) -> Seq<ColumnModel> {
    leading + Seq::new(
        names.len(),
        |i: int|
            ColumnModel {
                name: mapped_name(rules, names[i]),
                kind: ColumnKind::Double,
                unit_tag: unit_tag_of(channels, rules, names[i], tagged),
            },
    )
}

impl WideBind {
    /// What a wide table knows of its files fits together.
    pub open spec fn valid(self, files: int) -> bool {
        &&& 1 <= self.rate <= 5000
        &&& self.ranges@.len() == files
        &&& forall|f: int| 0 <= f < files ==> range_valid(#[trigger] self.ranges@[f], self.rate)
        &&& self.source_channels@.len() == files
        &&& forall|f: int|
            0 <= f < files ==> (#[trigger] self.source_channels@[f])@.len() == self.names@.len()
        &&& self.conversions@.len() == self.names@.len()
        &&& self.driver_channels@.len() == files
        &&& self.lap_channels@.len() == files
        &&& self.session_key is Some ==> self.session_offsets_ns@.len() == files && forall|f: int|
            0 <= f < files ==> #[trigger] self.session_offsets_ns@[f] <= i128::MAX - u64::MAX
    }

    /// Whether this is the wide table that a request asks for.
    pub open spec fn answers(
        self,
        files: Seq<SourceFile>,
        request: WideRequest,
        session: Option<Session>,
    ) -> bool {
        let wanted = requested_names(optional_text(request.channels));
        let names = wide_names(channels_of(files), wanted);
        let start = start_of(request.start_ns);
        let end = end_of(request.end_ns);
        &&& texts(self.names@) == names
        &&& self.rate == rate_of(request.rate)
        &&& self.linear == (interpolation_of(request.interpolate) == "linear"@)
        &&& self.include_filename == (is_on(request.filename) || is_on(
            request.add_filename_as_column,
        ))
        &&& self.include_create_date == (is_on(request.timestamps) || is_on(
            request.add_create_date_as_column,
        ))
        &&& self.include_modified_at == (is_on(request.timestamps) || is_on(
            request.add_modified_at_as_column,
        ))
        &&& self.conversions@ == Seq::new(
            names.len(),
            |i: int| mapped_conversion(self.map@, names[i]),
        )
        &&& columns_of(self.columns@) == wide_columns(
            if session is Some {
                session_leading_columns()
            } else {
                file_leading_columns(
                    self.include_filename,
                    self.include_create_date,
                    self.include_modified_at,
                )
            },
            channels_of(files),
            self.map@,
            names,
            is_on(request.unit_tags),
        )
        &&& forall|f: int, i: int|
            0 <= f < files.len() && 0 <= i < names.len() ==> (
            #[trigger] self.source_channels@[f]@[i]) == last_named(files[f].channels@, names[i])
        &&& self.driver_channels@ == Seq::new(
            files.len(),
            |f: int| first_answering(files[f].channels@, driver_names(), 0),
        )
        &&& self.lap_channels@ == Seq::new(
            files.len(),
            |f: int| first_answering(files[f].channels@, lap_names(), 0),
        )
        &&& optional_text(self.session_key) == (match session {
            Some(session) => Some(session.key@),
            None => None,
        })
        &&& session matches Some(session) ==> self.session_offsets_ns@ == Seq::new(
            files.len(),
            |f: int| session_offset(session, f) as i128,
        )
        &&& self.ranges@ == Seq::new(
            files.len(),
            |f: int|
                match session {
                    Some(session) => range_of(
                        files[f].channels@,
                        names,
                        on_file_clock(start, session_offset(session, f) as i128),
                        on_file_clock(end, session_offset(session, f) as i128),
                        self.rate,
                    ),
                    None => range_of(files[f].channels@, names, start, end, self.rate),
                },
        )
        &&& self.total_rows == rows_of(self.ranges@)
    }
}

// ---------------------------------------------------------------------------------------
// Building a wide table
// ---------------------------------------------------------------------------------------
/// Whether an option is switched on.
fn switched_on(option: Option<bool>) -> (on: bool)
    ensures
        on == is_on(option),
{
    match option {
        Some(on) => on,
        None => false,
    }
}

/// The names under which the driver is recorded.
fn driver_list() -> (names: Vec<String>)
    ensures
        texts(names@) == driver_names(),
{
    let mut names: Vec<String> = Vec::new();
    names.push("driverid".to_owned());
    names.push("driver".to_owned());
    names.push("driverindex".to_owned());
    assert(texts(names@) =~= driver_names());
    names
}

/// The names under which the lap is recorded.
fn lap_list() -> (names: Vec<String>)
    ensures
        texts(names@) == lap_names(),
{
    let mut names: Vec<String> = Vec::new();
    names.push("lapnumber".to_owned());
    names.push("lapnum".to_owned());
    names.push("lapcount".to_owned());
    names.push("lapcounter".to_owned());
    names.push("currentlap".to_owned());
    names.push("lap".to_owned());
    assert(texts(names@) =~= lap_names());
    names
}

/// For each file, the first channel that has samples and one of the names.
fn find_in_files(files: &Vec<SourceFile>, names: &Vec<String>) -> (found: Vec<Option<usize>>)
    ensures
        found@ == Seq::new(
            files@.len(),
            |f: int| first_answering(files@[f].channels@, texts(names@), 0),
        ),
{
    let mut found: Vec<Option<usize>> = Vec::new();
    let mut f: usize = 0;
    while f < files.len()
        invariant
            f <= files@.len(),
            found@ == Seq::new(
                f as nat,
                |k: int| first_answering(files@[k].channels@, texts(names@), 0),
            ),
        decreases files@.len() - f,
    {
        found.push(matching_channel(&files[f].channels, names));
        f = f + 1;
        assert(found@ =~= Seq::new(
            f as nat,
            |k: int| first_answering(files@[k].channels@, texts(names@), 0),
        ));
    }
    found
}

/// For each name, how its values change.
fn find_conversions(map: &ChannelMap, names: &Vec<String>) -> (conversions: Vec<Option<Affine>>)
    ensures
        conversions@ == Seq::new(
            names@.len(),
            |i: int| mapped_conversion(map@, texts(names@)[i]),
        ),
{
    let ghost all = texts(names@);
    let mut conversions: Vec<Option<Affine>> = Vec::new();
    let mut i: usize = 0;
    while i < names.len()
        invariant
            i <= names@.len(),
            all == texts(names@),
            conversions@ == Seq::new(i as nat, |k: int| mapped_conversion(map@, all[k])),
        decreases names@.len() - i,
    {
        conversions.push(map.conversion_for(names[i].as_str()));
        i = i + 1;
        assert(conversions@ =~= Seq::new(i as nat, |k: int| mapped_conversion(map@, all[k])));
    }
    conversions
}

/// For each name, the channel of a file.
fn find_channels(channels: &Vec<SourceChannel>, names: &Vec<String>) -> (found: Vec<Option<usize>>)
    ensures
        found@.len() == names@.len(),
        forall|i: int|
            0 <= i < names@.len() ==> #[trigger] found@[i] == last_named(
                channels@,
                texts(names@)[i],
            ),
{
    let mut found: Vec<Option<usize>> = Vec::new();
    let mut i: usize = 0;
    while i < names.len()
        invariant
            i <= names@.len(),
            found@.len() == i,
            forall|k: int|
                0 <= k < i ==> #[trigger] found@[k] == last_named(channels@, texts(names@)[k]),
        decreases names@.len() - i,
    {
        found.push(find_last_named(channels, names[i].as_str()));
        i = i + 1;
    }
    found
}

/// The unit that a column carries.
fn find_unit_tag(files: &Vec<SourceFile>, map: &ChannelMap, name: &str, tagged: bool) -> (tag:
    Option<String>)
    ensures
        optional_text(tag) == unit_tag_of(channels_of(files@), map@, name@, tagged),
{
    if !tagged {
        return None;
    }
    let mut units: Vec<String> = Vec::new();
    let mut f: usize = 0;
    assert(channels_of(files@.take(0)).len() == 0);
    assert(texts(units@) =~= Seq::empty());
    while f < files.len()
        invariant
            f <= files@.len(),
            texts(units@) == units_of(channels_of(files@.take(f as int)), map@, name@),
        decreases files@.len() - f,
    {
        let channels = &files[f].channels;
        let ghost before = channels_of(files@.take(f as int));
        let mut c: usize = 0;
        assert(before + channels@.take(0) =~= before);
        while c < channels.len()
            invariant
                c <= channels@.len(),
                texts(units@) == units_of(before + channels@.take(c as int), map@, name@),
            decreases channels@.len() - c,
        {
            let ghost upto = before + channels@.take(c + 1);
            assert(upto.drop_last() =~= before + channels@.take(c as int));
            assert(upto.last() == channels@[c as int]);
            let channel = &channels[c];
            if same_ignoring_case(channel.name.as_str(), name) {
                let (unit, _) = map.unit_for(
                    channel.name.as_str(),
                    channel.unit.as_str(),
                    channel.unit_source,
                );
                if !crate::filter::holds(&units, unit.as_str()) {
                    let ghost earlier = units@;
                    units.push(unit);
                    assert(texts(units@) =~= texts(earlier).push(unit@));
                }
            }
            c = c + 1;
        }
        assert(channels@.take(c as int) =~= channels@);
        assert(files@.take(f + 1).drop_last() =~= files@.take(f as int));
        f = f + 1;
    }
    assert(files@.take(f as int) =~= files@);
    assert(units@.len() == texts(units@).len());
    if units.len() == 1 {
        assert(texts(units@)[0] == units@[0]@);
        if units[0].as_str().is_empty() {
            None
        } else {
            Some(units[0].clone())
        }
    } else {
        None
    }
}

/// Appends the columns for the names.
fn push_columns(
    columns: Vec<Column>,
    files: &Vec<SourceFile>,
    map: &ChannelMap,
    names: &Vec<String>,
    tagged: bool,
) -> (all: Vec<Column>)
    ensures
        columns_of(all@) == wide_columns(
            columns_of(columns@),
            channels_of(files@),
            map@,
            texts(names@),
            tagged,
        ),
{
    let ghost leading = columns_of(columns@);
    let ghost listed = texts(names@);
    let ghost channels = channels_of(files@);
    let mut all = columns;
    let mut i: usize = 0;
    assert(listed.take(0).len() == 0);
    assert(columns_of(all@) =~= wide_columns(leading, channels, map@, listed.take(0), tagged));
    while i < names.len()
        invariant
            i <= names@.len(),
            listed == texts(names@),
            channels == channels_of(files@),
            columns_of(all@) == wide_columns(
                leading,
                channels,
                map@,
                listed.take(i as int),
                tagged,
            ),
        decreases names@.len() - i,
    {
        let ghost before = all@;
        let unit_tag = find_unit_tag(files, map, names[i].as_str(), tagged);
        let column = Column {
            name: map.name_for(names[i].as_str()).to_owned(),
            kind: ColumnKind::Double,
            unit_tag,
        };
        all.push(column);
        proof {
            assert(columns_of(all@) =~= columns_of(before).push(column@));
            assert(wide_columns(leading, channels, map@, listed.take(i + 1), tagged)
                =~= wide_columns(leading, channels, map@, listed.take(i as int), tagged).push(
                column@,
            ));
        }
        i = i + 1;
    }
    assert(listed.take(i as int) =~= listed);
    all
}

/// Where each file starts in a session.
fn find_offsets(session: &Session, files: usize) -> (offsets: Vec<i128>)
    requires
        session_valid(*session, files as int),
    ensures
        offsets@ == Seq::new(files as nat, |f: int| session_offset(*session, f) as i128),
        forall|f: int| 0 <= f < files ==> #[trigger] offsets@[f] <= i128::MAX - u64::MAX,
{
    let mut offsets: Vec<i128> = Vec::new();
    let mut f: usize = 0;
    while f < files
        invariant
            f <= files,
            session_valid(*session, files as int),
            offsets@ == Seq::new(f as nat, |k: int| session_offset(*session, k) as i128),
        decreases files - f,
    {
        assert(i128::MIN <= session_offset(*session, f as int) <= i128::MAX - u64::MAX);
        let ahead: i128 = match session.clock_offsets_ns[f] {
            Some(offset) => offset,
            None => 0,
        };
        offsets.push(ahead - session.base_ns as i128);
        f = f + 1;
        assert(offsets@ =~= Seq::new(f as nat, |k: int| session_offset(*session, k) as i128));
    }
    assert forall|f: int| 0 <= f < files implies #[trigger] offsets@[f] <= i128::MAX
        - u64::MAX by {
        assert(i128::MIN <= session_offset(*session, f) <= i128::MAX - u64::MAX);
    }
    offsets
}

/// Whether there is a clock for each of the files that can be reckoned with.
pub fn has_usable_clocks(session: &Session, files: usize) -> (usable: bool)
    ensures
        usable == session_valid(*session, files as int),
{
    if session.clock_offsets_ns.len() != files {
        return false;
    }
    let mut f: usize = 0;
    while f < files
        invariant
            f <= files,
            session.clock_offsets_ns@.len() == files,
            forall|k: int|
                0 <= k < f ==> i128::MIN <= #[trigger] session_offset(*session, k) <= i128::MAX
                    - u64::MAX,
        decreases files - f,
    {
        let ahead: i128 = match session.clock_offsets_ns[f] {
            Some(offset) => offset,
            None => 0,
        };
        match ahead.checked_sub(session.base_ns as i128) {
            Some(offset) => {
                assert(offset == session_offset(*session, f as int));
                if offset > i128::MAX - u64::MAX as i128 {
                    return false;
                }
            },
            None => {
                assert(session_offset(*session, f as int) < i128::MIN || session_offset(
                    *session,
                    f as int,
                ) > i128::MAX);
                return false;
            },
        }
        f = f + 1;
    }
    true
}

/// What the files contribute.
fn measure_ranges(
    files: &Vec<SourceFile>,
    names: &Vec<String>,
    span: Window,
    rate: u64,
    offsets: &Option<Vec<i128>>,
) -> (ranges: Vec<WideRange>)
    requires
        span.end_ns <= i64::MAX,
        1 <= rate <= 5000,
        offsets matches Some(offsets) ==> offsets@.len() == files@.len(),
    ensures
        ranges@ == Seq::new(
            files@.len(),
            |f: int|
                match *offsets {
                    Some(offsets) => range_of(
                        files@[f].channels@,
                        texts(names@),
                        on_file_clock(span.start_ns, offsets@[f]),
                        on_file_clock(span.end_ns, offsets@[f]),
                        rate,
                    ),
                    None => range_of(
                        files@[f].channels@,
                        texts(names@),
                        span.start_ns,
                        span.end_ns,
                        rate,
                    ),
                },
        ),
        forall|f: int| 0 <= f < files@.len() ==> range_valid(#[trigger] ranges@[f], rate),
{
    let ghost expected = Seq::new(
        files@.len(),
        |f: int|
            match *offsets {
                Some(offsets) => range_of(
                    files@[f].channels@,
                    texts(names@),
                    on_file_clock(span.start_ns, offsets@[f]),
                    on_file_clock(span.end_ns, offsets@[f]),
                    rate,
                ),
                None => range_of(
                    files@[f].channels@,
                    texts(names@),
                    span.start_ns,
                    span.end_ns,
                    rate,
                ),
            },
    );
    let mut ranges: Vec<WideRange> = Vec::new();
    let mut f: usize = 0;
    while f < files.len()
        invariant
            f <= files@.len(),
            span.end_ns <= i64::MAX,
            1 <= rate <= 5000,
            offsets matches Some(offsets) ==> offsets@.len() == files@.len(),
            expected == Seq::new(
                files@.len(),
                |f: int|
                    match *offsets {
                        Some(offsets) => range_of(
                            files@[f].channels@,
                            texts(names@),
                            on_file_clock(span.start_ns, offsets@[f]),
                            on_file_clock(span.end_ns, offsets@[f]),
                            rate,
                        ),
                        None => range_of(
                            files@[f].channels@,
                            texts(names@),
                            span.start_ns,
                            span.end_ns,
                            rate,
                        ),
                    },
            ),
            ranges@ == expected.take(f as int),
            forall|k: int| 0 <= k < f ==> range_valid(#[trigger] ranges@[k], rate),
        decreases files@.len() - f,
    {
        let (start_ns, end_ns) = match offsets {
            Some(offsets) => (
                to_file_clock(span.start_ns, offsets[f]),
                to_file_clock(span.end_ns, offsets[f]),
            ),
            None => (span.start_ns, span.end_ns),
        };
        ranges.push(measure_range(&files[f].channels, names, start_ns, end_ns, rate));
        assert(ranges@ =~= expected.take(f + 1));
        f = f + 1;
    }
    assert(ranges@ =~= expected);
    ranges
}

/// The number of rows of all ranges.
fn count_all_rows(ranges: &Vec<WideRange>) -> (rows: u64)
    ensures
        rows == rows_of(ranges@),
{
    let mut rows: u64 = 0;
    let mut i: usize = 0;
    assert(rows_of(ranges@.take(0)) == 0);
    while i < ranges.len()
        invariant
            i <= ranges@.len(),
            rows == rows_of(ranges@.take(i as int)),
        decreases ranges@.len() - i,
    {
        assert(ranges@.take(i + 1).drop_last() =~= ranges@.take(i as int));
        rows = rows.saturating_add(ranges[i].rows);
        i = i + 1;
    }
    assert(ranges@.take(i as int) =~= ranges@);
    rows
}

/// Checks a request for a wide table of the files and works the table out. `kind` names in
/// messages what the channels are of.
pub fn bind_wide(
    files: &Vec<SourceFile>,
    kind: &str,
    request: &WideRequest,
    map: Result<ChannelMap, String>,
    session: &Option<Session>,
) -> (bound: Result<WideBind, String>)
    requires
        session matches Some(session) ==> session_valid(*session, files@.len() as int),
    ensures
        ({
            let refusal = wide_refusal(files@, kind@, *request, stated_rules(map));
            match bound {
                Ok(bound) => refusal is None && map == Ok::<ChannelMap, String>(bound.map)
                    && bound.answers(files@, *request, *session) && bound.valid(
                    files@.len() as int,
                ),
                Err(message) => refusal == Some(message@),
            }
        }),
{
    let rate: i64 = match request.rate {
        Some(rate) => rate,
        None => 100,
    };
    if rate < 1 || rate > 5000 {
        return Err("rate must be between 1 and 5000 Hz".to_owned());
    }
    let rate: u64 = rate as u64;
    let span = match window(request.start_ns, request.end_ns) {
        Ok(span) => span,
        Err(message) => return Err(message),
    };
    let interpolation = match &request.interpolate {
        Some(text) => to_lower(text.as_str()),
        None => "linear".to_owned(),
    };
    let linear: bool = *interpolation.as_str() == *"linear";
    if !linear && !(*interpolation.as_str() == *"previous") {
        return Err("interpolate must be 'previous' or 'linear'".to_owned());
    }
    let filter = match &request.channels {
        Some(text) => parse_channel_filter(Some(text.as_str())),
        None => parse_channel_filter(None),
    };
    assert(filter@ == requested_names(optional_text(request.channels)));
    let names = collect_names(files, &filter);
    match check_found(&filter, &names, kind) {
        Ok(_) => {},
        Err(message) => return Err(message),
    }
    let available = channel_names(files);
    let map = match check_map(map, &available) {
        Ok(map) => map,
        Err(message) => return Err(message),
    };
    let timestamps: bool = switched_on(request.timestamps);
    let include_filename: bool = switched_on(request.filename) || switched_on(
        request.add_filename_as_column,
    );
    let include_create_date: bool = timestamps || switched_on(request.add_create_date_as_column);
    let include_modified_at: bool = timestamps || switched_on(request.add_modified_at_as_column);
    let conversions = find_conversions(&map, &names);
    let leading = match session {
        Some(_) => session_columns(),
        None => file_columns(include_filename, include_create_date, include_modified_at),
    };
    let columns = push_columns(leading, files, &map, &names, switched_on(request.unit_tags));
    let mut source_channels: Vec<Vec<Option<usize>>> = Vec::new();
    let mut f: usize = 0;
    while f < files.len()
        invariant
            f <= files@.len(),
            source_channels@.len() == f,
            forall|k: int|
                0 <= k < f ==> (#[trigger] source_channels@[k])@.len() == names@.len(),
            forall|k: int, i: int|
                0 <= k < f && 0 <= i < names@.len() ==> (#[trigger] source_channels@[k]@[i])
                    == last_named(files@[k].channels@, texts(names@)[i]),
        decreases files@.len() - f,
    {
        source_channels.push(find_channels(&files[f].channels, &names));
        f = f + 1;
    }
    let drivers = driver_list();
    let laps = lap_list();
    let driver_channels = find_in_files(files, &drivers);
    let lap_channels = find_in_files(files, &laps);
    let offsets: Option<Vec<i128>> = match session {
        Some(session) => Some(find_offsets(session, files.len())),
        None => None,
    };
    let ranges = measure_ranges(files, &names, span, rate, &offsets);
    let total_rows: u64 = count_all_rows(&ranges);
    let session_key: Option<String> = match session {
        Some(session) => Some(session.key.clone()),
        None => None,
    };
    let session_offsets_ns: Vec<i128> = match offsets {
        Some(offsets) => offsets,
        None => Vec::new(),
    };
    let bound = WideBind {
        names,
        source_channels,
        ranges,
        total_rows,
        rate,
        linear,
        include_filename,
        include_create_date,
        include_modified_at,
        map,
        conversions,
        columns,
        session_key,
        session_offsets_ns,
        driver_channels,
        lap_channels,
    };
    proof {
        let listed = wide_names(
            channels_of(files@),
            requested_names(optional_text(request.channels)),
        );
        assert(texts(bound.names@) == listed);
        assert(bound.names@.len() == listed.len());
        assert(bound.conversions@ =~= Seq::new(
            listed.len(),
            |i: int| mapped_conversion(bound.map@, listed[i]),
        ));
        assert(bound.ranges@ =~= Seq::new(
            files@.len(),
            |f: int|
                match *session {
                    Some(session) => range_of(
                        files@[f].channels@,
                        listed,
                        on_file_clock(
                            start_of(request.start_ns),
                            session_offset(session, f) as i128,
                        ),
                        on_file_clock(
                            end_of(request.end_ns),
                            session_offset(session, f) as i128,
                        ),
                        bound.rate,
                    ),
                    None => range_of(
                        files@[f].channels@,
                        listed,
                        start_of(request.start_ns),
                        end_of(request.end_ns),
                        bound.rate,
                    ),
                },
        ));
    }
    Ok(bound)
}

// ---------------------------------------------------------------------------------------
// Sessions
// ---------------------------------------------------------------------------------------
/// The gap between two files of a session that is asked for, in nanoseconds.
pub fn max_gap_ns(max_gap_seconds: Option<i64>) -> (gap: Result<u64, String>)
    ensures
        ({
            let seconds = match max_gap_seconds {
                Some(seconds) => seconds,
                None => 60,
            };
            match gap {
                Ok(gap) => 0 <= seconds <= 86_400 && gap == seconds * 1_000_000_000,
                Err(message) => !(0 <= seconds <= 86_400) && message@
                    == "max_gap_seconds must be between 0 and 86400"@,
            }
        }),
{
    let seconds: i64 = match max_gap_seconds {
        Some(seconds) => seconds,
        None => 60,
    };
    if seconds < 0 || seconds > 86_400 {
        return Err("max_gap_seconds must be between 0 and 86400".to_owned());
    }
    Ok(seconds as u64 * SECOND_NS)
}

/// Checks that files make up one session.
pub fn check_single_session(sessions: usize) -> (checked: Result<(), String>)
    ensures
        match checked {
            Ok(_) => sessions == 1,
            Err(message) => sessions != 1 && message@ == "read_telemetry_session matched "@
                + crate::text::decimal(sessions as nat)
                + " sessions; narrow the glob or adjust max_gap_seconds"@,
        },
{
    if sessions == 1 {
        return Ok(());
    }
    let mut message = "read_telemetry_session matched ".to_owned();
    let count = crate::text::decimal_text(sessions as u64);
    message.append(count.as_str());
    message.append(" sessions; narrow the glob or adjust max_gap_seconds");
    Err(message)
}

// ---------------------------------------------------------------------------------------
// Portions
// ---------------------------------------------------------------------------------------
/// The rows of a file from `from` on in portions.
pub open spec fn row_portions(file: int, from: int, rows: int) -> Seq<WideSegment>
    decreases rows - from,
{
    if from >= rows {
        Seq::empty()
    } else {
        let len = if rows - from < VECTOR_SIZE {
            rows - from
        } else {
            VECTOR_SIZE as int
        };
        seq![WideSegment { file: file as usize, row_start: from as u64, len: len as u64 }]
            + row_portions(file, from + len, rows)
    }
}

/// The rows of the files from the `file`-th on in portions.
pub open spec fn all_row_portions(ranges: Seq<WideRange>, file: int) -> Seq<WideSegment>
    decreases ranges.len() - file,
{
    if file < 0 || file >= ranges.len() {
        Seq::empty()
    } else {
        row_portions(file, 0, ranges[file].rows as int) + all_row_portions(ranges, file + 1)
    }
}

/// The portions in which the rows come.
pub fn wide_segments(ranges: &Vec<WideRange>) -> (segments: Vec<WideSegment>)
    ensures
        segments@ == all_row_portions(ranges@, 0),
{
    let mut segments: Vec<WideSegment> = Vec::new();
    let ghost all = all_row_portions(ranges@, 0);
    let mut file: usize = 0;
    assert(segments@ + all =~= all);
    while file < ranges.len()
        invariant
            file <= ranges@.len(),
            segments@ + all_row_portions(ranges@, file as int) == all,
        decreases ranges@.len() - file,
    {
        let rows: u64 = ranges[file].rows;
        let ghost later = all_row_portions(ranges@, file + 1);
        let ghost done = segments@ + row_portions(file as int, 0, rows as int);
        assert(segments@ + (row_portions(file as int, 0, rows as int) + later) =~= done + later);
        let mut row: u64 = 0;
        while row < rows
            invariant
                segments@ + row_portions(file as int, row as int, rows as int) == done,
            decreases rows - row,
        {
            let len: u64 = if rows - row < VECTOR_SIZE {
                rows - row
            } else {
                VECTOR_SIZE
            };
            let ghost before = segments@;
            let segment = WideSegment { file, row_start: row, len };
            segments.push(segment);
            proof {
                let rest = row_portions(file as int, row + len, rows as int);
                assert(before + (seq![segment] + rest) =~= segments@ + rest);
            }
            row = row + len;
        }
        assert(segments@ =~= done);
        file = file + 1;
    }
    assert(segments@ =~= all);
    segments
}

/// How often a row comes up in some portions.
pub open spec fn times_given(segments: Seq<WideSegment>, file: int, row: int) -> nat
    decreases segments.len(),
{
    if segments.len() == 0 {
        0
    } else {
        let last = segments.last();
        times_given(segments.drop_last(), file, row) + if last.file == file && last.row_start <= row
            < last.row_start + last.len {
            1nat
        } else {
            0
        }
    }
}

proof fn lemma_times_given_add(a: Seq<WideSegment>, b: Seq<WideSegment>, file: int, row: int)
    ensures
        times_given(a + b, file, row) == times_given(a, file, row) + times_given(b, file, row),
    decreases b.len(),
{
    if b.len() == 0 {
        assert(a + b =~= a);
    } else {
        assert((a + b).drop_last() =~= a + b.drop_last());
        lemma_times_given_add(a, b.drop_last(), file, row);
    }
}

proof fn lemma_row_portions(at: int, from: int, rows: int, file: int, row: int)
    requires
        0 <= at <= usize::MAX,
        0 <= from,
        rows <= u64::MAX,
    ensures
        times_given(row_portions(at, from, rows), file, row) == (if at == file && from <= row
            < rows {
            1nat
        } else {
            0
        }),
    decreases rows - from,
{
    if from < rows {
        let all = row_portions(at, from, rows);
        let len = if rows - from < VECTOR_SIZE {
            rows - from
        } else {
            VECTOR_SIZE as int
        };
        let first = seq![all[0]];
        let rest = row_portions(at, from + len, rows);
        lemma_row_portions(at, from + len, rows, file, row);
        lemma_times_given_add(first, rest, file, row);
        assert(all =~= first + rest);
        assert(first.drop_last() =~= Seq::empty());
        assert(times_given(first.drop_last(), file, row) == 0);
    }
}

proof fn lemma_all_row_portions(ranges: Seq<WideRange>, from: int, file: int, row: int)
    requires
        ranges.len() <= usize::MAX,
        0 <= from,
        0 <= file < ranges.len(),
    ensures
        times_given(all_row_portions(ranges, from), file, row) == (if from <= file && 0 <= row
            < ranges[file].rows {
            1nat
        } else {
            0
        }),
    decreases ranges.len() - from,
{
    if from < ranges.len() {
        lemma_all_row_portions(ranges, from + 1, file, row);
        lemma_row_portions(from, 0, ranges[from].rows as int, file, row);
        lemma_times_given_add(
            row_portions(from, 0, ranges[from].rows as int),
            all_row_portions(ranges, from + 1),
            file,
            row,
        );
    }
}

/// A wide table gives each row of each file exactly once, and no other row.
pub proof fn law_rows_come_once(ranges: Seq<WideRange>, file: int, row: int)
    requires
        ranges.len() <= usize::MAX,
        0 <= file < ranges.len(),
    ensures
        times_given(all_row_portions(ranges, 0), file, row) == (if 0 <= row < ranges[file].rows {
            1nat
        } else {
            0
        }),
{
    lemma_all_row_portions(ranges, 0, file, row);
}

/// Calls hand out each row of each file exactly once, and no other row, once there were as many
/// calls as there are portions.
pub proof fn law_rows_are_handed_out_once(
    ranges: Seq<WideRange>,
    calls: nat,
    file: int,
    row: int,
)
    requires
        ranges.len() <= usize::MAX,
        calls >= all_row_portions(ranges, 0).len(),
        0 <= file < ranges.len(),
    ensures
        times_given(handed_out(all_row_portions(ranges, 0), calls), file, row) == (if 0 <= row
            < ranges[file].rows {
            1nat
        } else {
            0
        }),
{
    law_portions_are_handed_out_once(all_row_portions(ranges, 0), calls);
    law_rows_come_once(ranges, file, row);
}

/// Whether a portion lies inside the rows of a file and is neither empty nor too large.
pub open spec fn is_row_portion(segment: WideSegment, ranges: Seq<WideRange>) -> bool {
    &&& segment.file < ranges.len()
    &&& 1 <= segment.len <= VECTOR_SIZE
    &&& segment.row_start + segment.len <= ranges[segment.file as int].rows
}

proof fn lemma_row_portions_fit(at: int, from: int, ranges: Seq<WideRange>)
    requires
        ranges.len() <= usize::MAX,
        0 <= at < ranges.len(),
        0 <= from,
    ensures
        ({
            let all = row_portions(at, from, ranges[at].rows as int);
            forall|i: int| 0 <= i < all.len() ==> is_row_portion(#[trigger] all[i], ranges)
        }),
    decreases ranges[at].rows - from,
{
    let rows = ranges[at].rows as int;
    if from < rows {
        let len = if rows - from < VECTOR_SIZE {
            rows - from
        } else {
            VECTOR_SIZE as int
        };
        lemma_row_portions_fit(at, from + len, ranges);
        let all = row_portions(at, from, rows);
        let rest = row_portions(at, from + len, rows);
        assert forall|i: int| 0 <= i < all.len() implies is_row_portion(
            #[trigger] all[i],
            ranges,
        ) by {
            if i > 0 {
                assert(all[i] == rest[i - 1]);
            }
        }
    }
}

/// Every portion lies inside the rows of a file and holds at least one and at most 2048 rows.
pub proof fn law_row_portions_fit(ranges: Seq<WideRange>, from: int)
    requires
        ranges.len() <= usize::MAX,
        0 <= from,
    ensures
        forall|i: int|
            0 <= i < all_row_portions(ranges, from).len() ==> is_row_portion(
                #[trigger] all_row_portions(ranges, from)[i],
                ranges,
            ),
    decreases ranges.len() - from,
{
    if from < ranges.len() {
        lemma_row_portions_fit(from, 0, ranges);
        law_row_portions_fit(ranges, from + 1);
        let own = row_portions(from, 0, ranges[from].rows as int);
        let rest = all_row_portions(ranges, from + 1);
        let all = all_row_portions(ranges, from);
        assert forall|i: int| 0 <= i < all.len() implies is_row_portion(
            #[trigger] all[i],
            ranges,
        ) by {
            if i < own.len() {
                assert(all[i] == own[i]);
            } else {
                assert(all[i] == rest[i - own.len()]);
            }
        }
    }
}

// ---------------------------------------------------------------------------------------
// Rows
// ---------------------------------------------------------------------------------------
/// What a column of a wide table holds.
#[derive(Debug, Clone, Copy, PartialEq, Eq, Structural)]
pub enum WideColumn {
    SessionKey,
    SessionTime,
    FileTime,
    SourceFile,
    VideoFile,
    VideoFrame,
    VideoSync,
    Driver,
    Lap,
    CreateDate,
    ModifiedAt,
    Channel(usize),
    /// No column of the table.
    Other,
}

impl WideBind {
    /// The number of columns before those of the channels.
    pub open spec fn fixed_columns(self) -> int {
        if self.session_key is Some {
            9
        } else {
            1 + (if self.include_filename {
                1int
            } else {
                0
            }) + (if self.include_create_date {
                1int
            } else {
                0
            }) + (if self.include_modified_at {
                1int
            } else {
                0
            })
        }
    }

    /// What a column holds.
    pub open spec fn column_at(self, column: u64) -> WideColumn {
        let create_date = if self.include_filename {
            1int
        } else {
            0
        };
        let modified_at = create_date + if self.include_create_date {
            1int
        } else {
            0
        };
        let time = modified_at + if self.include_modified_at {
            1int
        } else {
            0
        };
        if self.fixed_columns() <= column && column < self.fixed_columns() + self.names@.len() {
            WideColumn::Channel((column - self.fixed_columns()) as usize)
        } else if self.session_key is Some {
            if column == 0 {
                WideColumn::SessionKey
            } else if column == 1 {
                WideColumn::SessionTime
            } else if column == 2 {
                WideColumn::FileTime
            } else if column == 3 {
                WideColumn::SourceFile
            } else if column == 4 {
                WideColumn::VideoFile
            } else if column == 5 {
                WideColumn::VideoFrame
            } else if column == 6 {
                WideColumn::VideoSync
            } else if column == 7 {
                WideColumn::Driver
            } else if column == 8 {
                WideColumn::Lap
            } else {
                WideColumn::Other
            }
        } else if self.include_filename && column == 0 {
            WideColumn::SourceFile
        } else if self.include_create_date && column == create_date {
            WideColumn::CreateDate
        } else if self.include_modified_at && column == modified_at {
            WideColumn::ModifiedAt
        } else if column == time {
            WideColumn::FileTime
        } else {
            WideColumn::Other
        }
    }

    /// What stands in a column of the `row`-th row of a file; `ordinal` is the place of the
    /// row's portion among all.
    pub open spec fn cell_at(
        self,
        file: SourceFile,
        index: int,
        ordinal: usize,
        column: u64,
        row: int,
    ) -> CellModel {
        let time_ns = row_time(self.ranges@[index].start_ns as int, row, self.rate as int) as u64;
        match self.column_at(column) {
            WideColumn::SessionKey => CellModel::Text(self.session_key->0@),
            WideColumn::SessionTime => CellModel::Signed(
                {
                    let moment = time_ns + self.session_offsets_ns@[index];
                    if i64::MIN <= moment <= i64::MAX {
                        moment as i64
                    } else {
                        i64::MAX
                    }
                },
            ),
            WideColumn::FileTime => CellModel::Signed(time_ns as i64),
            WideColumn::SourceFile => CellModel::Text(file.path@),
            WideColumn::VideoFile => CellModel::VideoFile { time_ns },
            WideColumn::VideoFrame => CellModel::VideoFrame { time_ns },
            WideColumn::VideoSync => CellModel::VideoSync { time_ns },
            WideColumn::Driver => match self.driver_channels@[index] {
                Some(channel) => CellModel::WholeReading { channel, time_ns },
                None => CellModel::Null,
            },
            WideColumn::Lap => match self.lap_channels@[index] {
                Some(channel) => CellModel::WholeReading { channel, time_ns },
                None => CellModel::Null,
            },
            WideColumn::CreateDate => CellModel::Signed(file.create_date_micros),
            WideColumn::ModifiedAt => CellModel::Signed(file.modified_at_micros),
            WideColumn::Channel(i) => match self.source_channels@[index]@[i as int] {
                Some(channel) => CellModel::Reading {
                    channel,
                    time_ns,
                    linear: self.linear,
                    conversion: self.conversions@[i as int],
                },
                None => CellModel::Null,
            },
            WideColumn::Other => CellModel::Signed(ordinal as i64),
        }
    }

    /// The number of columns before those of the channels.
    pub fn fixed_column_count(&self) -> (count: u64)
        ensures
            count == self.fixed_columns(),
    {
        if self.session_key.is_some() {
            return SESSION_FIXED_COLUMNS;
        }
        let mut count: u64 = 1;
        if self.include_filename {
            count = count + 1;
        }
        if self.include_create_date {
            count = count + 1;
        }
        if self.include_modified_at {
            count = count + 1;
        }
        count
    }

    /// What a column holds.
    pub fn column(&self, column: u64) -> (held: WideColumn)
        ensures
            held == self.column_at(column),
    {
        let fixed: u64 = self.fixed_column_count();
        if column >= fixed && column - fixed < self.names.len() as u64 {
            return WideColumn::Channel((column - fixed) as usize);
        }
        if self.session_key.is_some() {
            return match column {
                0 => WideColumn::SessionKey,
                1 => WideColumn::SessionTime,
                2 => WideColumn::FileTime,
                3 => WideColumn::SourceFile,
                4 => WideColumn::VideoFile,
                5 => WideColumn::VideoFrame,
                6 => WideColumn::VideoSync,
                7 => WideColumn::Driver,
                8 => WideColumn::Lap,
                _ => WideColumn::Other,
            };
        }
        let create_date: u64 = if self.include_filename {
            1
        } else {
            0
        };
        let modified_at: u64 = if self.include_create_date {
            create_date + 1
        } else {
            create_date
        };
        let time: u64 = if self.include_modified_at {
            modified_at + 1
        } else {
            modified_at
        };
        if self.include_filename && column == 0 {
            WideColumn::SourceFile
        } else if self.include_create_date && column == create_date {
            WideColumn::CreateDate
        } else if self.include_modified_at && column == modified_at {
            WideColumn::ModifiedAt
        } else if column == time {
            WideColumn::FileTime
        } else {
            WideColumn::Other
        }
    }

    /// What stands in a column of the `row`-th row of a portion; `ordinal` is the place of the
    /// portion among all. A table of a session has no columns but its own.
    pub fn cell(
        &self,
        file: &SourceFile,
        segment: &WideSegment,
        ordinal: usize,
        column: u64,
        row: u64,
    ) -> (cell: Cell)
        requires
            self.valid(self.ranges@.len() as int),
            is_row_portion(*segment, self.ranges@),
            row < segment.len,
            self.session_key is Some ==> self.column_at(column) !is Other,
        ensures
            cell@ == self.cell_at(
                *file,
                segment.file as int,
                ordinal,
                column,
                segment.row_start + row,
            ),
    {
        let index: usize = segment.file;
        assert(range_valid(self.ranges@[index as int], self.rate));
        assert(self.source_channels@[index as int]@.len() == self.names@.len());
        let time_ns: u64 = time_of_row(&self.ranges[index], segment.row_start + row, self.rate);
        match self.column(column) {
            WideColumn::SessionKey => match &self.session_key {
                Some(key) => text_cell(key.as_str()),
                None => Cell::Null,
            },
            WideColumn::SessionTime => {
                assert(self.session_offsets_ns@[index as int] <= i128::MAX - u64::MAX);
                let moment: i128 = time_ns as i128 + self.session_offsets_ns[index];
                if i64::MIN as i128 <= moment && moment <= i64::MAX as i128 {
                    Cell::Signed(moment as i64)
                } else {
                    Cell::Signed(i64::MAX)
                }
            },
            WideColumn::FileTime => Cell::Signed(time_ns as i64),
            WideColumn::SourceFile => text_cell(file.path.as_str()),
            WideColumn::VideoFile => Cell::VideoFile { time_ns },
            WideColumn::VideoFrame => Cell::VideoFrame { time_ns },
            WideColumn::VideoSync => Cell::VideoSync { time_ns },
            WideColumn::Driver => match self.driver_channels[index] {
                Some(channel) => Cell::WholeReading { channel, time_ns },
                None => Cell::Null,
            },
            WideColumn::Lap => match self.lap_channels[index] {
                Some(channel) => Cell::WholeReading { channel, time_ns },
                None => Cell::Null,
            },
            WideColumn::CreateDate => Cell::Signed(file.create_date_micros),
            WideColumn::ModifiedAt => Cell::Signed(file.modified_at_micros),
            WideColumn::Channel(i) => match self.source_channels[index][i] {
                Some(channel) => Cell::Reading {
                    channel,
                    time_ns,
                    linear: self.linear,
                    conversion: self.conversions[i],
                },
                None => Cell::Null,
            },
            WideColumn::Other => Cell::Signed(ordinal as i64),
        }
    }
}

} // verus!
