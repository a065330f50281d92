//! What holds of queries for samples, of filters and of counts.
use crate::cell::CellModel;
use crate::channel_map::{mapped_conversion, mapped_name, mapped_unit, Rule};
use crate::export::{sampled_channels, total_samples};
use crate::filter::{different_names, has_name, names_missing, selects};
use crate::samples::{
    all_portions, all_spaced, channel_portions, chunks_spaced, counted, end_of, file_portions,
    first_not_before, map_refusal, portions, sample_cell_of, samples_of, samples_refusal,
    selection_spaced, start_of, SampleSegment, Window, VECTOR_SIZE,
};
use crate::source::{channels_of, names_of, SourceChannel, SourceChunk, SourceFile};
use crate::text::{join, lower, trim};
use crate::wide::{all_row_portions, row_portions, WideRange, WideSegment};
use vstd::prelude::*;

verus! {

// ---------------------------------------------------------------------------------------
// Filters
// ---------------------------------------------------------------------------------------
/// Without a filter every channel is selected; with one, exactly the channels whose names are
/// in it, whatever the case of their letters.
pub proof fn law_a_filter_selects_its_names(wanted: Seq<Seq<char>>, name: Seq<char>)
    ensures
        wanted.len() == 0 ==> selects(wanted, name),
        wanted.len() > 0 ==> (selects(wanted, name) <==> exists|i: int|
            0 <= i < wanted.len() && #[trigger] wanted[i] == lower(name)),
{
    if selects(wanted, name) && wanted.len() > 0 {
        let i = choose|i: int| 0 <= i < wanted.len() && wanted[i] == lower(name);
        assert(wanted[i] == lower(name));
    }
}

/// Whether a name is none of some names, whatever the case of their letters.
pub open spec fn is_absent(found: Seq<Seq<char>>, key: Seq<char>) -> bool {
    forall|i: int| 0 <= i < found.len() ==> lower(#[trigger] found[i]) != key
}

/// Names that are asked for and not there are told in their order, all of them and no other.
pub proof fn law_missing_names_are_told(wanted: Seq<Seq<char>>, found: Seq<Seq<char>>)
    ensures
        names_missing(wanted, found) == wanted.filter(|key: Seq<char>| is_absent(found, key)),
    decreases wanted.len(),
{
    reveal(Seq::filter);
    if wanted.len() > 0 {
        law_missing_names_are_told(wanted.drop_last(), found);
        assert(has_name(found, wanted.last()) <==> !is_absent(found, wanted.last()));
    }
}

/// The parts of a filter come in their order: a further part that is not blank and not there
/// yet is the last.
pub proof fn law_a_filter_keeps_the_order(parts: Seq<Seq<char>>, part: Seq<char>)
    ensures
        ({
            let before = different_names(parts);
            let name = lower(trim(part));
            different_names(parts.push(part)) == (if name.len() > 0 && !before.contains(name) {
                before.push(name)
            } else {
                before
            })
        }),
        different_names(Seq::empty()).len() == 0,
{
    assert(parts.push(part).drop_last() =~= parts);
}

// ---------------------------------------------------------------------------------------
// Windows
// ---------------------------------------------------------------------------------------
/// A window starts when it is asked to, but not before the recording, and ends when it is asked
/// to; without an end it goes on as long as time can be counted.
pub proof fn law_windows(start: Option<i64>, end: Option<i64>)
    ensures
        start matches Some(ns) ==> start_of(start) == (if ns > 0 {
            ns as int
        } else {
            0
        }),
        start is None ==> start_of(start) == 0,
        end matches Some(ns) ==> end_of(end) == (if ns > 0 {
            ns as int
        } else {
            0
        }),
        end is None ==> end_of(end) == 0x7fff_ffff_ffff_ffff,
{
}

/// A query for samples is refused exactly if a name is not there, if the window ends before it
/// starts, or if the map is refused, and the message is that of the first of these.
pub proof fn law_refused_queries(
    files: Seq<SourceFile>,
    kind: Seq<char>,
    wanted: Seq<Seq<char>>,
    start_ns: u64,
    end_ns: u64,
    map: Result<Seq<Rule>, Seq<char>>,
)
    ensures
        ({
            let names = names_of(channels_of(files));
            let missing = wanted.filter(|key: Seq<char>| is_absent(names, key));
            let refusal = samples_refusal(files, kind, wanted, start_ns, end_ns, map);
            if missing.len() > 0 {
                refusal == Some(kind + " channel(s) not found: "@ + join(missing, ", "@))
            } else if start_ns > end_ns {
                refusal == Some("end_ns must be greater than or equal to start_ns"@)
            } else {
                refusal == map_refusal(map, names)
            }
        }),
{
    law_missing_names_are_told(wanted, names_of(channels_of(files)));
}

// ---------------------------------------------------------------------------------------
// Counts
// ---------------------------------------------------------------------------------------
/// The number of samples of channels.
pub open spec fn count_of(channels: Seq<SourceChannel>) -> nat
    decreases channels.len(),
{
    if channels.len() == 0 {
        0
    } else {
        channels[0].sample_count as nat + count_of(channels.skip(1))
    }
}

proof fn lemma_count_last(channels: Seq<SourceChannel>)
    requires
        channels.len() > 0,
    ensures
        count_of(channels) == count_of(channels.drop_last())
            + channels.last().sample_count as nat,
    decreases channels.len(),
{
    if channels.len() == 1 {
        assert(channels.skip(1) =~= Seq::empty());
        assert(channels.drop_last() =~= Seq::empty());
    } else {
        lemma_count_last(channels.skip(1));
        assert(channels.skip(1).drop_last() =~= channels.drop_last().skip(1));
    }
}

/// A query has as many samples as the selected channels have together, and an export as many
/// as its channels; a channel counts in a report if it has samples.
pub proof fn law_samples_are_counted(channels: Seq<SourceChannel>, wanted: Seq<Seq<char>>)
    ensures
        samples_of(channels, wanted) == count_of(
            channels.filter(|channel: SourceChannel| selects(wanted, channel.name@)),
        ),
        total_samples(channels) == count_of(channels),
        sampled_channels(channels) == channels.filter(
            |channel: SourceChannel| channel.sample_count > 0,
        ).len(),
    decreases channels.len(),
{
    reveal(Seq::filter);
    if channels.len() > 0 {
        let front = channels.drop_last();
        law_samples_are_counted(front, wanted);
        lemma_count_last(channels);
        let chosen = |channel: SourceChannel| selects(wanted, channel.name@);
        let before = front.filter(chosen);
        if chosen(channels.last()) {
            lemma_count_last(before.push(channels.last()));
            assert(before.push(channels.last()).drop_last() =~= before);
        }
    }
}

/// A count is told as far as 64 bits can hold it.
pub proof fn law_counts_fit(n: nat)
    ensures
        n <= 0xffff_ffff_ffff_ffff ==> counted(n) == Some(n as u64),
        n > 0xffff_ffff_ffff_ffff ==> counted(n) is None,
{
}

/// The channels of files are those of the first, then those of the second, and so on.
pub proof fn law_channels_of_files(files: Seq<SourceFile>, file: SourceFile)
    ensures
        channels_of(files.push(file)) == channels_of(files) + file.channels@,
        channels_of(Seq::<SourceFile>::empty()) == Seq::<SourceChannel>::empty(),
{
    assert(files.push(file).drop_last() =~= files);
}

// ---------------------------------------------------------------------------------------
// Order
// ---------------------------------------------------------------------------------------
/// Whether a portion comes before another: in an earlier file, in an earlier channel of it, in
/// an earlier chunk, or with earlier samples.
pub open spec fn comes_before(a: SampleSegment, b: SampleSegment) -> bool {
    ||| a.file < b.file
    ||| a.file == b.file && a.channel < b.channel
    ||| a.file == b.file && a.channel == b.channel && a.chunk < b.chunk
    ||| a.file == b.file && a.channel == b.channel && a.chunk == b.chunk && a.local_start + a.len
        <= b.local_start
}

/// Whether portions come in their order.
pub open spec fn is_ordered(segments: Seq<SampleSegment>) -> bool {
    forall|i: int, j: int|
        0 <= i < j < segments.len() ==> comes_before(#[trigger] segments[i], #[trigger] segments[j])
}

proof fn lemma_ordered_add(a: Seq<SampleSegment>, b: Seq<SampleSegment>)
    requires
        is_ordered(a),
        is_ordered(b),
        forall|i: int, j: int|
            0 <= i < a.len() && 0 <= j < b.len() ==> comes_before(#[trigger] a[i], #[trigger] b[j]),
    ensures
        is_ordered(a + b),
{
    let all = a + b;
    assert forall|i: int, j: int| 0 <= i < j < all.len() implies comes_before(
        #[trigger] all[i],
        #[trigger] all[j],
    ) by {
        if j < a.len() {
            assert(all[i] == a[i] && all[j] == a[j]);
        } else if i < a.len() {
            assert(all[i] == a[i] && all[j] == b[j - a.len()]);
        } else {
            assert(all[i] == b[i - a.len()] && all[j] == b[j - a.len()]);
        }
    }
}

proof fn lemma_portions_ordered(file: int, channel: int, chunk: int, from: int, to: int)
    requires
        0 <= file <= usize::MAX,
        0 <= channel <= usize::MAX,
        0 <= chunk <= usize::MAX,
        0 <= from,
        to <= u64::MAX,
    ensures
        is_ordered(portions(file, channel, chunk, from, to)),
        forall|i: int|
            0 <= i < portions(file, channel, chunk, from, to).len() ==> ({
                let segment = #[trigger] portions(file, channel, chunk, from, to)[i];
                segment.file == file && segment.channel == channel && segment.chunk == chunk
                    && segment.local_start >= from
            }),
    decreases to - from,
{
    if from < to {
        let len = if to - from < VECTOR_SIZE {
            to - from
        } else {
            VECTOR_SIZE as int
        };
        let first = seq![portions(file, channel, chunk, from, to)[0]];
        let rest = portions(file, channel, chunk, from + len, to);
        lemma_portions_ordered(file, channel, chunk, from + len, to);
        assert(portions(file, channel, chunk, from, to) =~= first + rest);
        lemma_ordered_add(first, rest);
    }
}

proof fn lemma_channel_ordered(
    file: int,
    channel: int,
    chunks: Seq<SourceChunk>,
    span: Window,
    chunk: int,
)
    requires
        0 <= file <= usize::MAX,
        0 <= channel <= usize::MAX,
        chunks.len() <= usize::MAX,
        0 <= chunk,
        chunks_spaced(chunks, span),
    ensures
        is_ordered(channel_portions(file, channel, chunks, span, chunk)),
        forall|i: int|
            0 <= i < channel_portions(file, channel, chunks, span, chunk).len() ==> ({
                let segment = #[trigger] channel_portions(file, channel, chunks, span, chunk)[i];
                segment.file == file && segment.channel == channel && segment.chunk >= chunk
            }),
    decreases chunks.len() - chunk,
{
    if chunk < chunks.len() {
        assert(crate::samples::chunk_spaced(chunks[chunk], span));
        let from = first_not_before(chunks[chunk], span.start_ns as int);
        let to = first_not_before(chunks[chunk], span.end_ns as int);
        lemma_first_in_range(chunks[chunk], span);
        lemma_portions_ordered(file, channel, chunk, from, to);
        lemma_channel_ordered(file, channel, chunks, span, chunk + 1);
        lemma_ordered_add(
            portions(file, channel, chunk, from, to),
            channel_portions(file, channel, chunks, span, chunk + 1),
        );
    }
}

proof fn lemma_first_in_range(chunk: SourceChunk, span: Window)
    requires
        crate::samples::chunk_spaced(chunk, span),
    ensures
        0 <= first_not_before(chunk, span.start_ns as int) <= u64::MAX,
        0 <= first_not_before(chunk, span.end_ns as int) <= u64::MAX,
{
    let p = chunk.sample_period_ns as int;
    if p > 0 {
        let a = span.start_ns - chunk.time_base_ns + p - 1;
        let b = span.end_ns - chunk.time_base_ns + p - 1;
        assert(a >= 0 ==> a / p >= 0) by (nonlinear_arith)
            requires
                p > 0,
        ;
        assert(b >= 0 ==> b / p >= 0) by (nonlinear_arith)
            requires
                p > 0,
        ;
    }
}

proof fn lemma_file_ordered(
    file: int,
    channels: Seq<SourceChannel>,
    wanted: Seq<Seq<char>>,
    span: Window,
    channel: int,
)
    requires
        0 <= file <= usize::MAX,
        channels.len() <= usize::MAX,
        0 <= channel,
        selection_spaced(channels, wanted, span),
    ensures
        is_ordered(file_portions(file, channels, wanted, span, channel)),
        forall|i: int|
            0 <= i < file_portions(file, channels, wanted, span, channel).len() ==> ({
                let segment = #[trigger] file_portions(file, channels, wanted, span, channel)[i];
                segment.file == file && segment.channel >= channel
            }),
    decreases channels.len() - channel,
{
    if channel < channels.len() {
        lemma_file_ordered(file, channels, wanted, span, channel + 1);
        let rest = file_portions(file, channels, wanted, span, channel + 1);
        if selects(wanted, channels[channel].name@) {
            let chunks = channels[channel].chunks@;
            assert(chunks.len() == channels[channel].chunks.len());
            lemma_channel_ordered(file, channel, chunks, span, 0);
            lemma_ordered_add(channel_portions(file, channel, chunks, span, 0), rest);
        } else {
            assert(Seq::<SampleSegment>::empty() + rest =~= rest);
        }
    }
}

/// Samples come by file, then by channel, then in time.
pub proof fn law_samples_come_in_order(
    files: Seq<SourceFile>,
    wanted: Seq<Seq<char>>,
    span: Window,
    file: int,
)
    requires
        files.len() <= usize::MAX,
        all_spaced(files, wanted, span),
        0 <= file,
    ensures
        is_ordered(all_portions(files, wanted, span, file)),
        forall|i: int|
            0 <= i < all_portions(files, wanted, span, file).len() ==> (
            #[trigger] all_portions(files, wanted, span, file)[i]).file >= file,
    decreases files.len() - file,
{
    if file < files.len() {
        let channels = files[file].channels@;
        assert(channels.len() == files[file].channels.len());
        assert(selection_spaced(channels, wanted, span));
        lemma_file_ordered(file, channels, wanted, span, 0);
        law_samples_come_in_order(files, wanted, span, file + 1);
        lemma_ordered_add(
            file_portions(file, channels, wanted, span, 0),
            all_portions(files, wanted, span, file + 1),
        );
    }
}

/// Whether a portion of rows comes before another.
pub open spec fn row_comes_before(a: WideSegment, b: WideSegment) -> bool {
    a.file < b.file || (a.file == b.file && a.row_start + a.len <= b.row_start)
}

/// Rows come by file, then in time.
pub proof fn law_rows_come_in_order(ranges: Seq<WideRange>, file: int)
    requires
        ranges.len() <= usize::MAX,
        0 <= file,
    ensures
        ({
            let all = all_row_portions(ranges, file);
            &&& forall|i: int, j: int|
                0 <= i < j < all.len() ==> row_comes_before(#[trigger] all[i], #[trigger] all[j])
            &&& forall|i: int| 0 <= i < all.len() ==> (#[trigger] all[i]).file >= file
        }),
    decreases ranges.len() - file,
{
    let all = all_row_portions(ranges, file);
    if file < ranges.len() {
        law_rows_come_in_order(ranges, file + 1);
        lemma_rows_ordered(file, 0, ranges[file].rows as int);
        let own = row_portions(file, 0, ranges[file].rows as int);
        let rest = all_row_portions(ranges, file + 1);
        assert forall|i: int, j: int| 0 <= i < j < all.len() implies row_comes_before(
            #[trigger] all[i],
            #[trigger] all[j],
        ) by {
            if j < own.len() {
                assert(all[i] == own[i] && all[j] == own[j]);
            } else if i < own.len() {
                assert(all[i] == own[i] && all[j] == rest[j - own.len()]);
            } else {
                assert(all[i] == rest[i - own.len()] && all[j] == rest[j - own.len()]);
            }
        }
        assert forall|i: int| 0 <= i < all.len() implies (#[trigger] all[i]).file >= file by {
            if i < own.len() {
                assert(all[i] == own[i]);
            } else {
                assert(all[i] == rest[i - own.len()]);
            }
        }
    }
}

proof fn lemma_rows_ordered(file: int, from: int, rows: int)
    requires
        0 <= file <= usize::MAX,
        0 <= from,
        rows <= u64::MAX,
    ensures
        ({
            let all = row_portions(file, from, rows);
            &&& forall|i: int, j: int|
                0 <= i < j < all.len() ==> row_comes_before(#[trigger] all[i], #[trigger] all[j])
            &&& forall|i: int|
                0 <= i < all.len() ==> (#[trigger] all[i]).file == file && all[i].row_start >= from
        }),
    decreases rows - from,
{
    let all = row_portions(file, from, rows);
    if from < rows {
        let len = if rows - from < VECTOR_SIZE {
            rows - from
        } else {
            VECTOR_SIZE as int
        };
        lemma_rows_ordered(file, from + len, rows);
        let rest = row_portions(file, from + len, rows);
        assert forall|i: int, j: int| 0 <= i < j < all.len() implies row_comes_before(
            #[trigger] all[i],
            #[trigger] all[j],
        ) by {
            assert(all[j] == rest[j - 1]);
            if i > 0 {
                assert(all[i] == rest[i - 1]);
            }
        }
        assert forall|i: int| 0 <= i < all.len() implies (#[trigger] all[i]).file == file
            && all[i].row_start >= from by {
            if i > 0 {
                assert(all[i] == rest[i - 1]);
            }
        }
    }
}

// ---------------------------------------------------------------------------------------
// Rows
// ---------------------------------------------------------------------------------------
/// A row of samples tells, in this order, the file and its format, the channel's number, name,
/// unit and where the unit comes from, the frequency of the chunk, the number and the time of
/// the sample, and its value; name, unit and value by the rules for the channel.
pub proof fn law_a_row_of_samples(
    file: SourceFile,
    rules: Seq<Rule>,
    segment: SampleSegment,
    ordinal: usize,
    row: u64,
)
    requires
        segment.local_start + row <= u64::MAX,
        file.channels@[segment.channel as int].chunks@[segment.chunk as int].sample_base
            + segment.local_start + row <= u64::MAX,
    ensures
        ({
            let channel = file.channels@[segment.channel as int];
            let chunk = channel.chunks@[segment.chunk as int];
            let index = (segment.local_start + row) as u64;
            let unit = mapped_unit(rules, channel.name@, channel.unit@, channel.unit_source);
            Seq::new(
                10,
                |column: int|
                    sample_cell_of(file, rules, segment, ordinal, column as u64, row),
            ) == seq![
                CellModel::Text(file.path@),
                CellModel::Text(file.format@),
                CellModel::Unsigned32(channel.id),
                CellModel::Text(mapped_name(rules, channel.name@)),
                CellModel::Text(unit.0),
                CellModel::Text(
                    if unit.1 is Declared {
                        "declared"@
                    } else if unit.1 is SpecDefault {
                        "spec_default"@
                    } else {
                        "unknown"@
                    },
                ),
                CellModel::Ratio {
                    numerator: 1_000_000_000,
                    denominator: chunk.sample_period_ns,
                },
                CellModel::Unsigned(
                    (chunk.sample_base + segment.local_start + row) as u64,
                ),
                CellModel::SampleTime { channel: segment.channel, chunk: segment.chunk, index },
                CellModel::Sample {
                    channel: segment.channel,
                    chunk: segment.chunk,
                    index,
                    conversion: mapped_conversion(rules, channel.name@),
                },
            ]
        }),
{
}

/// A portion of samples or of rows has at least one and fits into a vector of 2048.
pub proof fn law_portions_fit_a_vector(
    files: Seq<SourceFile>,
    wanted: Seq<Seq<char>>,
    span: Window,
    ranges: Seq<WideRange>,
)
    requires
        files.len() <= usize::MAX,
        all_spaced(files, wanted, span),
        ranges.len() <= usize::MAX,
    ensures
        forall|i: int|
            0 <= i < all_portions(files, wanted, span, 0).len() ==> 1 <= (
            #[trigger] all_portions(files, wanted, span, 0)[i]).len <= 2048,
        forall|i: int|
            0 <= i < all_row_portions(ranges, 0).len() ==> 1 <= (
            #[trigger] all_row_portions(ranges, 0)[i]).len <= 2048,
{
    crate::samples::law_portions_fit(files, wanted, span, 0);
    crate::wide::law_row_portions_fit(ranges, 0);
    assert forall|i: int| 0 <= i < all_portions(files, wanted, span, 0).len() implies 1 <= (
    #[trigger] all_portions(files, wanted, span, 0)[i]).len <= 2048 by {
        assert(crate::samples::is_portion_of(all_portions(files, wanted, span, 0)[i], files));
    }
    assert forall|i: int| 0 <= i < all_row_portions(ranges, 0).len() implies 1 <= (
    #[trigger] all_row_portions(ranges, 0)[i]).len <= 2048 by {
        assert(crate::wide::is_row_portion(all_row_portions(ranges, 0)[i], ranges));
    }
}

} // verus!
