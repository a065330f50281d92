//! Samples one by one: which of them a query asks for, and in what portions they come.
use crate::cell::{text_cell, Cell, CellModel};
use crate::channel_map::{
    has_rule, law_lookup_finds_the_rule, mapped_conversion, mapped_name, mapped_unit, rule_named,
    unmatched_sources, ChannelMap, Rule,
};
use crate::filter::{
    names_missing, parse_channel_filter, requested_names, selects, ChannelFilter,
};
use crate::schema::{handed_out, law_portions_are_handed_out_once};
use crate::source::{
    channel_names, channels_of, names_of, SourceChannel, SourceChunk, SourceFile,
};
use crate::text::{join, join_all, sorted, texts};
use vstd::prelude::*;

verus! {

/// The number of rows of a portion.
pub const VECTOR_SIZE: u64 = 2048;

/// A span of time; the end does not belong to it.
#[derive(Debug, Clone, Copy, PartialEq, Eq, Structural)]
pub struct Window {
    pub start_ns: u64,
    pub end_ns: u64,
}

/// A portion of the samples of a chunk.
#[derive(Debug, Clone, Copy, PartialEq, Eq, Structural)]
pub struct SampleSegment {
    pub file: usize,
    pub channel: usize,
    pub chunk: usize,
    pub local_start: u64,
    pub len: u64,
}

/// A query for samples.
#[derive(Debug)]
pub struct SamplesBind {
    pub channel_filter: ChannelFilter,
    pub window: Window,
    pub map: ChannelMap,
    /// The number of samples of the channels asked for, if it can be counted.
    pub cardinality: Option<u64>,
    /// Whether all of them are asked for.
    pub exact: bool,
}

// ---------------------------------------------------------------------------------------
// What a query asks for
// ---------------------------------------------------------------------------------------
/// The number of samples of the selected channels.
pub open spec fn samples_of(channels: Seq<SourceChannel>, wanted: Seq<Seq<char>>) -> nat
    decreases channels.len(),
{
    if channels.len() == 0 {
        0
    } else {
        samples_of(channels.drop_last(), wanted) + if selects(wanted, channels.last().name@) {
            channels.last().sample_count as nat
        } else {
            0
        }
    }
}

/// A number that fits into 64 bits.
pub open spec fn counted(n: nat) -> Option<u64> {
    if n <= u64::MAX {
        Some(n as u64)
    } else {
        None
    }
}

/// The start of the span of time that a caller asks for: there is nothing before zero.
pub open spec fn start_of(start_ns: Option<i64>) -> u64 {
    match start_ns {
        Some(ns) => if ns < 0 {
            0
        } else {
            ns as u64
        },
        None => 0,
    }
}

/// The end of the span of time that a caller asks for.
pub open spec fn end_of(end_ns: Option<i64>) -> u64 {
    match end_ns {
        Some(ns) => if ns < 0 {
            0
        } else {
            ns as u64
        },
        None => i64::MAX as u64,
    }
}

/// The message for channels that were asked for and are not there.
pub open spec fn not_found(kind: Seq<char>, missing: Seq<Seq<char>>) -> Seq<char> {
    kind + " channel(s) not found: "@ + join(missing, ", "@)
}

/// The rules that an argument states, or what is wrong with it.
pub open spec fn stated_rules(map: Result<ChannelMap, String>) -> Result<Seq<Rule>, Seq<char>> {
    match map {
        Ok(map) => Ok(map@),
        Err(message) => Err(message@),
    }
}

/// What is wrong with a `channel_map` argument, given the channels there are.
pub open spec fn map_refusal(
    map: Result<Seq<Rule>, Seq<char>>,
    available: Seq<Seq<char>>,
) -> Option<Seq<char>> {
    match map {
        Err(message) => Some(message),
        Ok(rules) => if unmatched_sources(rules, available).len() == 0 {
            None
        } else {
            Some(
                "channel_map references channel(s) not present in the data: "@ + join(
                    sorted(unmatched_sources(rules, available)),
                    ", "@,
                ),
            )
        },
    }
}

/// What is wrong with a query for samples, if anything is: the first thing in this order.
pub open spec fn samples_refusal(
    files: Seq<SourceFile>,
    kind: Seq<char>,
    wanted: Seq<Seq<char>>,
    start_ns: u64,
    end_ns: u64,
    map: Result<Seq<Rule>, Seq<char>>,
) -> Option<Seq<char>> {
    let names = names_of(channels_of(files));
    if names_missing(wanted, names).len() > 0 {
        Some(not_found(kind, names_missing(wanted, names)))
    } else if end_ns < start_ns {
        Some("end_ns must be greater than or equal to start_ns"@)
    } else {
        map_refusal(map, names)
    }
}

/// The span of time that a caller asks for.
pub fn window(start_ns: Option<i64>, end_ns: Option<i64>) -> (span: Result<Window, String>)
    ensures
        match span {
            Ok(span) => span.start_ns == start_of(start_ns) && span.end_ns == end_of(end_ns)
                && span.start_ns <= span.end_ns,
            Err(message) => end_of(end_ns) < start_of(start_ns) && message@
                == "end_ns must be greater than or equal to start_ns"@,
        },
{
    let start: u64 = match start_ns {
        Some(ns) => if ns < 0 {
            0
        } else {
            ns as u64
        },
        None => 0,
    };
    let end: u64 = match end_ns {
        Some(ns) => if ns < 0 {
            0
        } else {
            ns as u64
        },
        None => i64::MAX as u64,
    };
    if end < start {
        return Err("end_ns must be greater than or equal to start_ns".to_owned());
    }
    Ok(Window { start_ns: start, end_ns: end })
}

/// Checks that every channel that is asked for was found.
pub fn check_found(filter: &ChannelFilter, found: &Vec<String>, kind: &str) -> (checked: Result<
    (),
    String,
>)
    ensures
        ({
            let missing = names_missing(filter@, texts(found@));
            match checked {
                Ok(_) => missing.len() == 0,
                Err(message) => missing.len() > 0 && message@ == not_found(kind@, missing),
            }
        }),
{
    let missing = filter.missing(found);
    assert(missing@.len() == texts(missing@).len());
    if missing.len() > 0 {
        let listed = join_all(&missing, ", ");
        let mut message = kind.to_owned();
        message.append(" channel(s) not found: ");
        message.append(listed.as_str());
        return Err(message);
    }
    Ok(())
}

/// Checks a `channel_map` argument against the channels there are.
pub fn check_map(map: Result<ChannelMap, String>, available: &Vec<String>) -> (checked: Result<
    ChannelMap,
    String,
>)
    ensures
        match checked {
            Ok(rules) => map == Ok::<ChannelMap, String>(rules) && map_refusal(
                stated_rules(map),
                texts(available@),
            ) is None,
            Err(message) => map_refusal(stated_rules(map), texts(available@)) == Some(message@),
        },
{
    match map {
        Err(message) => Err(message),
        Ok(rules) => match rules.validate(available) {
            Ok(_) => Ok(rules),
            Err(message) => Err(message),
        },
    }
}

/// Counts the samples of the selected channels.
fn count_samples(files: &Vec<SourceFile>, filter: &ChannelFilter) -> (count: Option<u64>)
    ensures
        count == counted(samples_of(channels_of(files@), filter@)),
{
    let mut count: Option<u64> = Some(0);
    let mut f: usize = 0;
    assert(channels_of(files@.take(0)).len() == 0);
    while f < files.len()
        invariant
            f <= files@.len(),
            count == counted(samples_of(channels_of(files@.take(f as int)), filter@)),
        decreases files@.len() - f,
    {
        let channels = &files[f].channels;
        let ghost before = channels_of(files@.take(f as int));
        let mut c: usize = 0;
        assert(before + channels@.take(0) =~= before);
        while c < channels.len()
            invariant
                c <= channels@.len(),
                count == counted(samples_of(before + channels@.take(c as int), filter@)),
            decreases channels@.len() - c,
        {
            let ghost upto = before + channels@.take(c + 1);
            assert(upto.drop_last() =~= before + channels@.take(c as int));
            assert(upto.last() == channels@[c as int]);
            if filter.takes(channels[c].name.as_str()) {
                count = match count {
                    Some(n) => n.checked_add(channels[c].sample_count),
                    None => None,
                };
            }
            c = c + 1;
        }
        assert(channels@.take(c as int) =~= channels@);
        assert(files@.take(f + 1).drop_last() =~= files@.take(f as int));
        f = f + 1;
    }
    assert(files@.take(f as int) =~= files@);
    count
}

/// Checks a query for samples of the files. `kind` names in messages what the channels are of.
pub fn bind_samples(
    files: &Vec<SourceFile>,
    kind: &str,
    channel: Option<&str>,
    start_ns: Option<i64>,
    end_ns: Option<i64>,
    map: Result<ChannelMap, String>,
) -> (bound: Result<SamplesBind, String>)
    ensures
        ({
            let wanted = requested_names(
                match channel {
                    Some(text) => Some(text@),
                    None => None,
                },
            );
            let refusal = samples_refusal(
                files@,
                kind@,
                wanted,
                start_of(start_ns),
                end_of(end_ns),
                stated_rules(map),
            );
            match bound {
                Ok(bound) => {
                    &&& refusal is None
                    &&& bound.channel_filter@ == wanted
                    &&& bound.window.start_ns == start_of(start_ns)
                    &&& bound.window.end_ns == end_of(end_ns)
                    &&& map == Ok::<ChannelMap, String>(bound.map)
                    &&& bound.cardinality == counted(samples_of(channels_of(files@), wanted))
                    &&& bound.exact == (bound.window.start_ns == 0 && bound.window.end_ns
                        == i64::MAX)
                },
                Err(message) => refusal == Some(message@),
            }
        }),
{
    let channel_filter = parse_channel_filter(channel);
    let available = channel_names(files);
    match check_found(&channel_filter, &available, kind) {
        Ok(_) => {},
        Err(message) => return Err(message),
    }
    let span = match window(start_ns, end_ns) {
        Ok(span) => span,
        Err(message) => return Err(message),
    };
    let map = match check_map(map, &available) {
        Ok(map) => map,
        Err(message) => return Err(message),
    };
    let cardinality = count_samples(files, &channel_filter);
    let exact: bool = span.start_ns == 0 && span.end_ns == i64::MAX as u64;
    Ok(SamplesBind { channel_filter, window: span, map, cardinality, exact })
}

// ---------------------------------------------------------------------------------------
// Portions
// ---------------------------------------------------------------------------------------
/// A quotient rounded up.
pub open spec fn quotient_up(value: int, divisor: int) -> int {
    (value + divisor - 1) / divisor
}

/// The first sample of a chunk that is not before a moment.
pub open spec fn first_not_before(chunk: SourceChunk, time_ns: int) -> int {
    let n = if time_ns <= chunk.time_base_ns {
        0
    } else {
        quotient_up(time_ns - chunk.time_base_ns, chunk.sample_period_ns as int)
    };
    if n < chunk.sample_count {
        n
    } else {
        chunk.sample_count as int
    }
}

/// The samples from `from` up to `to` in portions.
pub open spec fn portions(
    file: int,
    channel: int,
    chunk: int,
    from: int,
    to: int,
) -> Seq<SampleSegment>
    decreases to - from,
{
    if from >= to {
        Seq::empty()
    } else {
        let len = if to - from < VECTOR_SIZE {
            to - from
        } else {
            VECTOR_SIZE as int
        };
        seq![
            SampleSegment {
                file: file as usize,
                channel: channel as usize,
                chunk: chunk as usize,
                local_start: from as u64,
                len: len as u64,
            },
        ] + portions(file, channel, chunk, from + len, to)
    }
}

/// The portions of the chunks of a channel from the `chunk`-th on.
pub open spec fn channel_portions(
    file: int,
    channel: int,
    chunks: Seq<SourceChunk>,
    span: Window,
    chunk: int,
) -> Seq<SampleSegment>
    decreases chunks.len() - chunk,
{
    if chunk < 0 || chunk >= chunks.len() {
        Seq::empty()
    } else {
        portions(
            file,
            channel,
            chunk,
            first_not_before(chunks[chunk], span.start_ns as int),
            first_not_before(chunks[chunk], span.end_ns as int),
        ) + channel_portions(file, channel, chunks, span, chunk + 1)
    }
}

/// The portions of the selected channels of a file from the `channel`-th on.
pub open spec fn file_portions(
    file: int,
    channels: Seq<SourceChannel>,
    wanted: Seq<Seq<char>>,
    span: Window,
    channel: int,
) -> Seq<SampleSegment>
    decreases channels.len() - channel,
{
    if channel < 0 || channel >= channels.len() {
        Seq::empty()
    } else {
        (if selects(wanted, channels[channel].name@) {
            channel_portions(file, channel, channels[channel].chunks@, span, 0)
        } else {
            Seq::empty()
        }) + file_portions(file, channels, wanted, span, channel + 1)
    }
}

/// The portions of the selected channels of the files from the `file`-th on.
pub open spec fn all_portions(
    files: Seq<SourceFile>,
    wanted: Seq<Seq<char>>,
    span: Window,
    file: int,
) -> Seq<SampleSegment>
    decreases files.len() - file,
{
    if file < 0 || file >= files.len() {
        Seq::empty()
    } else {
        file_portions(file, files[file].channels@, wanted, span, 0) + all_portions(
            files,
            wanted,
            span,
            file + 1,
        )
    }
}

/// Whether the samples of a chunk can be told by their times in a span: time passes between
/// them, or the chunk does not start before the span ends.
pub open spec fn chunk_spaced(chunk: SourceChunk, span: Window) -> bool {
    chunk.sample_period_ns > 0 || (span.start_ns <= chunk.time_base_ns && span.end_ns
        <= chunk.time_base_ns)
}

/// Whether the samples of every chunk can be told by their times in a span.
pub open spec fn chunks_spaced(chunks: Seq<SourceChunk>, span: Window) -> bool {
    forall|i: int| 0 <= i < chunks.len() ==> chunk_spaced(#[trigger] chunks[i], span)
}

/// Whether the samples of every selected channel can be told by their times in a span.
pub open spec fn selection_spaced(
    channels: Seq<SourceChannel>,
    wanted: Seq<Seq<char>>,
    span: Window,
) -> bool {
    forall|c: int|
        0 <= c < channels.len() && selects(wanted, (#[trigger] channels[c]).name@)
            ==> chunks_spaced(channels[c].chunks@, span)
}

/// Whether the samples of every selected channel of every file can be told by their times in a
/// span.
pub open spec fn all_spaced(files: Seq<SourceFile>, wanted: Seq<Seq<char>>, span: Window) -> bool {
    forall|f: int|
        0 <= f < files.len() ==> selection_spaced((#[trigger] files[f]).channels@, wanted, span)
}

/// Whether the samples of every selected channel can be told by their times in a span. Channels
/// that are not selected do not matter.
pub fn has_spaced_samples(files: &Vec<SourceFile>, filter: &ChannelFilter, span: Window) -> (spaced:
    bool)
    ensures
        spaced == all_spaced(files@, filter@, span),
{
    let mut f: usize = 0;
    while f < files.len()
        invariant
            f <= files@.len(),
            forall|a: int|
                0 <= a < f ==> selection_spaced((#[trigger] files@[a]).channels@, filter@, span),
        decreases files@.len() - f,
    {
        let channels = &files[f].channels;
        let mut c: usize = 0;
        while c < channels.len()
            invariant
                f < files@.len(),
                *channels == files@[f as int].channels,
                c <= channels@.len(),
                forall|k: int|
                    0 <= k < c && selects(filter@, (#[trigger] channels@[k]).name@)
                        ==> chunks_spaced(channels@[k].chunks@, span),
            decreases channels@.len() - c,
        {
            if filter.takes(channels[c].name.as_str()) {
                let chunks = &channels[c].chunks;
                let mut k: usize = 0;
                while k < chunks.len()
                    invariant
                        f < files@.len(),
                        *channels == files@[f as int].channels,
                        c < channels@.len(),
                        selects(filter@, channels@[c as int].name@),
                        *chunks == channels@[c as int].chunks,
                        k <= chunks@.len(),
                        forall|i: int| 0 <= i < k ==> chunk_spaced(#[trigger] chunks@[i], span),
                    decreases chunks@.len() - k,
                {
                    let chunk: SourceChunk = chunks[k];
                    if chunk.sample_period_ns == 0 && (span.start_ns > chunk.time_base_ns
                        || span.end_ns > chunk.time_base_ns) {
                        assert(!chunk_spaced(chunks@[k as int], span));
                        assert(!chunks_spaced(channels@[c as int].chunks@, span));
                        assert(!selection_spaced(files@[f as int].channels@, filter@, span));
                        return false;
                    }
                    k = k + 1;
                }
            }
            c = c + 1;
        }
        f = f + 1;
    }
    true
}

/// A quotient rounded up.
pub fn ceil_div(value: u64, divisor: u64) -> (quotient: u64)
    requires
        divisor > 0,
    ensures
        quotient == quotient_up(value as int, divisor as int),
{
    let quotient: u64 = value / divisor;
    let rest: u64 = value % divisor;
    proof {
        let q = quotient as int;
        let r = rest as int;
        let d = divisor as int;
        let v = value as int;
        assert(v == d * q + r) by (nonlinear_arith)
            requires
                q == v / d,
                r == v % d,
                d > 0,
        ;
        if r == 0 {
            assert((v + d - 1) / d == q) by (nonlinear_arith)
                requires
                    v == d * q,
                    d > 0,
            ;
        } else {
            assert((v + d - 1) / d == q + 1) by (nonlinear_arith)
                requires
                    v == d * q + r,
                    0 < r < d,
            ;
            assert(q + 1 <= v) by (nonlinear_arith)
                requires
                    v == d * q + r,
                    0 < r < d,
                    q >= 0,
            ;
        }
    }
    if rest == 0 {
        quotient
    } else {
        quotient + 1
    }
}

proof fn lemma_quotient_up_bounds(value: int, divisor: int)
    requires
        divisor > 0,
        value >= 0,
    ensures
        0 <= quotient_up(value, divisor),
{
    assert(0 <= (value + divisor - 1) / divisor) by (nonlinear_arith)
        requires
            divisor > 0,
            value >= 0,
    ;
}

/// The first sample of a chunk that is not before a moment.
fn find_first(chunk: &SourceChunk, time_ns: u64) -> (first: u64)
    requires
        chunk.sample_period_ns > 0 || time_ns <= chunk.time_base_ns,
    ensures
        first == first_not_before(*chunk, time_ns as int),
        first <= chunk.sample_count,
{
    let n: u64 = if time_ns <= chunk.time_base_ns {
        0
    } else {
        ceil_div(time_ns - chunk.time_base_ns, chunk.sample_period_ns)
    };
    if n < chunk.sample_count {
        n
    } else {
        chunk.sample_count
    }
}

/// Appends the portions of a run of samples.
fn push_portions(
    segments: &mut Vec<SampleSegment>,
    file: usize,
    channel: usize,
    chunk: usize,
    from: u64,
    to: u64,
)
    ensures
        final(segments)@ == old(segments)@ + portions(
            file as int,
            channel as int,
            chunk as int,
            from as int,
            to as int,
        ),
{
    let ghost all = segments@ + portions(
        file as int,
        channel as int,
        chunk as int,
        from as int,
        to as int,
    );
    let mut at: u64 = from;
    while at < to
        invariant
            segments@ + portions(file as int, channel as int, chunk as int, at as int, to as int)
                == all,
        decreases to - at,
    {
        let len: u64 = if to - at < VECTOR_SIZE {
            to - at
        } else {
            VECTOR_SIZE
        };
        let ghost before = segments@;
        let segment = SampleSegment { file, channel, chunk, local_start: at, len };
        segments.push(segment);
        proof {
            let rest = portions(
                file as int,
                channel as int,
                chunk as int,
                at + len,
                to as int,
            );
            assert(before + (seq![segment] + rest) =~= segments@ + rest);
        }
        at = at + len;
    }
    assert(segments@ =~= all);
}

/// Appends the portions of a channel.
fn push_channel(
    segments: &mut Vec<SampleSegment>,
    file: usize,
    channel: usize,
    chunks: &Vec<SourceChunk>,
    span: Window,
)
    requires
        chunks_spaced(chunks@, span),
    ensures
        final(segments)@ == old(segments)@ + channel_portions(
            file as int,
            channel as int,
            chunks@,
            span,
            0,
        ),
{
    let ghost all = segments@ + channel_portions(file as int, channel as int, chunks@, span, 0);
    let mut chunk: usize = 0;
    while chunk < chunks.len()
        invariant
            chunk <= chunks@.len(),
            chunks_spaced(chunks@, span),
            segments@ + channel_portions(
                file as int,
                channel as int,
                chunks@,
                span,
                chunk as int,
            ) == all,
        decreases chunks@.len() - chunk,
    {
        assert(chunk_spaced(chunks@[chunk as int], span));
        let first: u64 = find_first(&chunks[chunk], span.start_ns);
        let past_end: u64 = find_first(&chunks[chunk], span.end_ns);
        let ghost before = segments@;
        push_portions(segments, file, channel, chunk, first, past_end);
        proof {
            let own = portions(
                file as int,
                channel as int,
                chunk as int,
                first as int,
                past_end as int,
            );
            let rest = channel_portions(file as int, channel as int, chunks@, span, chunk + 1);
            assert(before + (own + rest) =~= segments@ + rest);
        }
        chunk = chunk + 1;
    }
    assert(segments@ =~= all);
}

/// The portions in which the samples of the selected channels come.
pub fn sample_segments(files: &Vec<SourceFile>, filter: &ChannelFilter, span: Window) -> (segments:
    Vec<SampleSegment>)
    requires
        all_spaced(files@, filter@, span),
    ensures
        segments@ == all_portions(files@, filter@, span, 0),
{
    let mut segments: Vec<SampleSegment> = Vec::new();
    let ghost all = all_portions(files@, filter@, span, 0);
    let mut file: usize = 0;
    assert(segments@ + all =~= all);
    while file < files.len()
        invariant
            file <= files@.len(),
            all_spaced(files@, filter@, span),
            segments@ + all_portions(files@, filter@, span, file as int) == all,
        decreases files@.len() - file,
    {
        let channels = &files[file].channels;
        let ghost later = all_portions(files@, filter@, span, file + 1);
        let ghost done = segments@;
        let ghost own = file_portions(file as int, channels@, filter@, span, 0);
        let mut channel: usize = 0;
        assert(done + (own + later) =~= (done + own) + later);
        while channel < channels.len()
            invariant
                file < files@.len(),
                *channels == files@[file as int].channels,
                channel <= channels@.len(),
                all_spaced(files@, filter@, span),
                segments@ + file_portions(
                    file as int,
                    channels@,
                    filter@,
                    span,
                    channel as int,
                ) == done + own,
            decreases channels@.len() - channel,
        {
            let ghost before = segments@;
            let ghost rest = file_portions(file as int, channels@, filter@, span, channel + 1);
            if filter.takes(channels[channel].name.as_str()) {
                assert(selection_spaced(files@[file as int].channels@, filter@, span));
                assert(chunks_spaced(channels@[channel as int].chunks@, span));
                push_channel(&mut segments, file, channel, &channels[channel].chunks, span);
                proof {
                    let mine = channel_portions(
                        file as int,
                        channel as int,
                        channels@[channel as int].chunks@,
                        span,
                        0,
                    );
                    assert(before + (mine + rest) =~= segments@ + rest);
                }
            } else {
                assert(before + (Seq::<SampleSegment>::empty() + rest) =~= segments@ + rest);
            }
            channel = channel + 1;
        }
        assert(segments@ =~= done + own);
        file = file + 1;
    }
    assert(segments@ =~= all);
    segments
}

// ---------------------------------------------------------------------------------------
// Laws on portions
// ---------------------------------------------------------------------------------------
/// Whether a portion holds a sample.
pub open spec fn covers(segment: SampleSegment, file: int, channel: int, chunk: int, index: int)
    -> bool {
    &&& segment.file == file
    &&& segment.channel == channel
    &&& segment.chunk == chunk
    &&& segment.local_start <= index < segment.local_start + segment.len
}

/// How often a sample comes up in some portions.
pub open spec fn times_covered(
    segments: Seq<SampleSegment>,
    file: int,
    channel: int,
    chunk: int,
    index: int,
) -> nat
    decreases segments.len(),
{
    if segments.len() == 0 {
        0
    } else {
        times_covered(segments.drop_last(), file, channel, chunk, index) + if covers(
            segments.last(),
            file,
            channel,
            chunk,
            index,
        ) {
            1nat
        } else {
            0
        }
    }
}

proof fn lemma_times_covered_add(
    a: Seq<SampleSegment>,
    b: Seq<SampleSegment>,
    file: int,
    channel: int,
    chunk: int,
    index: int,
)
    ensures
        times_covered(a + b, file, channel, chunk, index) == times_covered(
            a,
            file,
            channel,
            chunk,
            index,
        ) + times_covered(b, file, channel, chunk, index),
    decreases b.len(),
{
    if b.len() == 0 {
        assert(a + b =~= a);
    } else {
        assert((a + b).drop_last() =~= a + b.drop_last());
        lemma_times_covered_add(a, b.drop_last(), file, channel, chunk, index);
    }
}

proof fn lemma_portions_cover(
    at: (int, int, int),
    from: int,
    to: int,
    file: int,
    channel: int,
    chunk: int,
    index: int,
)
    requires
        0 <= at.0 <= usize::MAX,
        0 <= at.1 <= usize::MAX,
        0 <= at.2 <= usize::MAX,
        0 <= from,
        to <= u64::MAX,
    ensures
        times_covered(portions(at.0, at.1, at.2, from, to), file, channel, chunk, index) == (if at
            == (file, channel, chunk) && from <= index < to {
            1nat
        } else {
            0
        }),
    decreases to - from,
{
    let all = portions(at.0, at.1, at.2, from, to);
    if from < to {
        let len = if to - from < VECTOR_SIZE {
            to - from
        } else {
            VECTOR_SIZE as int
        };
        let first = seq![all[0]];
        let rest = portions(at.0, at.1, at.2, from + len, to);
        lemma_portions_cover(at, from + len, to, file, channel, chunk, index);
        lemma_times_covered_add(first, rest, file, channel, chunk, index);
        assert(all =~= first + rest);
        assert(first.drop_last() =~= Seq::empty());
        assert(times_covered(first.drop_last(), file, channel, chunk, index) == 0);
    }
}

/// Whether a channel has a sample that lies in a span of time.
pub open spec fn in_span(chunks: Seq<SourceChunk>, span: Window, chunk: int, index: int) -> bool {
    first_not_before(chunks[chunk], span.start_ns as int) <= index < first_not_before(
        chunks[chunk],
        span.end_ns as int,
    )
}

proof fn lemma_channel_covers(
    at: (int, int),
    chunks: Vec<SourceChunk>,
    span: Window,
    from: int,
    file: int,
    channel: int,
    chunk: int,
    index: int,
)
    requires
        0 <= at.0 <= usize::MAX,
        0 <= at.1 <= usize::MAX,
        0 <= from,
        chunks_spaced(chunks@, span),
    ensures
        times_covered(
            channel_portions(at.0, at.1, chunks@, span, from),
            file,
            channel,
            chunk,
            index,
        ) == (if at == (file, channel) && from <= chunk < chunks@.len() && in_span(
            chunks@,
            span,
            chunk,
            index,
        ) {
            1nat
        } else {
            0
        }),
    decreases chunks@.len() - from,
{
    if from < chunks@.len() {
        assert(chunks.len() == chunks@.len());
        let first = first_not_before(chunks@[from], span.start_ns as int);
        let past_end = first_not_before(chunks@[from], span.end_ns as int);
        assert(chunk_spaced(chunks@[from], span));
        if span.start_ns > chunks@[from].time_base_ns {
            lemma_quotient_up_bounds(
                span.start_ns - chunks@[from].time_base_ns,
                chunks@[from].sample_period_ns as int,
            );
        }
        lemma_channel_covers(at, chunks, span, from + 1, file, channel, chunk, index);
        lemma_portions_cover(
            (at.0, at.1, from),
            first,
            past_end,
            file,
            channel,
            chunk,
            index,
        );
        lemma_times_covered_add(
            portions(at.0, at.1, from, first, past_end),
            channel_portions(at.0, at.1, chunks@, span, from + 1),
            file,
            channel,
            chunk,
            index,
        );
    }
}

proof fn lemma_file_covers(
    at: int,
    channels: Vec<SourceChannel>,
    wanted: Seq<Seq<char>>,
    span: Window,
    from: int,
    file: int,
    channel: int,
    chunk: int,
    index: int,
)
    requires
        0 <= at <= usize::MAX,
        0 <= from,
        selection_spaced(channels@, wanted, span),
    ensures
        times_covered(
            file_portions(at, channels@, wanted, span, from),
            file,
            channel,
            chunk,
            index,
        ) == (if at == file && from <= channel < channels@.len() && selects(
            wanted,
            channels@[channel].name@,
        ) && 0 <= chunk < channels@[channel].chunks@.len() && in_span(
            channels@[channel].chunks@,
            span,
            chunk,
            index,
        ) {
            1nat
        } else {
            0
        }),
    decreases channels@.len() - from,
{
    if from < channels@.len() {
        assert(channels.len() == channels@.len());
        lemma_file_covers(at, channels, wanted, span, from + 1, file, channel, chunk, index);
        let rest = file_portions(at, channels@, wanted, span, from + 1);
        if selects(wanted, channels@[from].name@) {
            lemma_channel_covers(
                (at, from),
                channels@[from].chunks,
                span,
                0,
                file,
                channel,
                chunk,
                index,
            );
            lemma_times_covered_add(
                channel_portions(at, from, channels@[from].chunks@, span, 0),
                rest,
                file,
                channel,
                chunk,
                index,
            );
        } else {
            assert(Seq::<SampleSegment>::empty() + rest =~= rest);
        }
    }
}

proof fn lemma_all_cover(
    files: Seq<SourceFile>,
    wanted: Seq<Seq<char>>,
    span: Window,
    from: int,
    file: int,
    channel: int,
    chunk: int,
    index: int,
)
    requires
        files.len() <= usize::MAX,
        all_spaced(files, wanted, span),
        0 <= from,
        0 <= file < files.len(),
        0 <= channel < files[file].channels@.len(),
        0 <= chunk < files[file].channels@[channel].chunks@.len(),
    ensures
        times_covered(all_portions(files, wanted, span, from), file, channel, chunk, index) == (
        if from <= file && selects(wanted, files[file].channels@[channel].name@) && in_span(
            files[file].channels@[channel].chunks@,
            span,
            chunk,
            index,
        ) {
            1nat
        } else {
            0
        }),
    decreases files.len() - from,
{
    if from < files.len() {
        lemma_all_cover(files, wanted, span, from + 1, file, channel, chunk, index);
        assert(selection_spaced(files[from].channels@, wanted, span));
        lemma_file_covers(
            from,
            files[from].channels,
            wanted,
            span,
            0,
            file,
            channel,
            chunk,
            index,
        );
        lemma_times_covered_add(
            file_portions(from, files[from].channels@, wanted, span, 0),
            all_portions(files, wanted, span, from + 1),
            file,
            channel,
            chunk,
            index,
        );
    }
}

proof fn lemma_not_before(chunk: SourceChunk, time_ns: int, index: int)
    requires
        chunk.sample_period_ns > 0 || time_ns <= chunk.time_base_ns,
        0 <= index < chunk.sample_count,
        0 <= time_ns,
    ensures
        first_not_before(chunk, time_ns) <= index <==> time_ns <= chunk.time_base_ns + index
            * chunk.sample_period_ns,
{
    let p = chunk.sample_period_ns as int;
    assert(index * p >= 0) by (nonlinear_arith)
        requires
            index >= 0,
            p >= 0,
    ;
    if time_ns > chunk.time_base_ns {
        let gap = time_ns - chunk.time_base_ns;
        assert((gap + p - 1) / p <= index <==> gap <= index * p) by (nonlinear_arith)
            requires
                p > 0,
                gap > 0,
                index >= 0,
        ;
    }
}

/// A query gives each sample of a selected channel exactly once if its time lies in the span
/// that is asked for, and no other sample.
pub proof fn law_samples_come_once(
    files: Seq<SourceFile>,
    wanted: Seq<Seq<char>>,
    span: Window,
    file: int,
    channel: int,
    chunk: int,
    index: int,
)
    requires
        files.len() <= usize::MAX,
        all_spaced(files, wanted, span),
        0 <= file < files.len(),
        0 <= channel < files[file].channels@.len(),
        0 <= chunk < files[file].channels@[channel].chunks@.len(),
        0 <= index < files[file].channels@[channel].chunks@[chunk].sample_count,
    ensures
        ({
            let run = files[file].channels@[channel].chunks@[chunk];
            let time_ns = run.time_base_ns + index * run.sample_period_ns;
            times_covered(all_portions(files, wanted, span, 0), file, channel, chunk, index) == (
            if selects(wanted, files[file].channels@[channel].name@) && span.start_ns <= time_ns
                && time_ns < span.end_ns {
                1nat
            } else {
                0
            })
        }),
{
    let run = files[file].channels@[channel].chunks@[chunk];
    lemma_all_cover(files, wanted, span, 0, file, channel, chunk, index);
    if selects(wanted, files[file].channels@[channel].name@) {
        assert(selection_spaced(files[file].channels@, wanted, span));
        assert(chunk_spaced(run, span));
        lemma_not_before(run, span.start_ns as int, index);
        lemma_not_before(run, span.end_ns as int, index);
    }
}

/// Calls hand out each sample of a selected channel exactly once if its time lies in the span
/// that is asked for, and no other sample, once there were as many calls as there are portions.
pub proof fn law_samples_are_handed_out_once(
    files: Seq<SourceFile>,
    wanted: Seq<Seq<char>>,
    span: Window,
    calls: nat,
    file: int,
    channel: int,
    chunk: int,
    index: int,
)
    requires
        files.len() <= usize::MAX,
        all_spaced(files, wanted, span),
        calls >= all_portions(files, wanted, span, 0).len(),
        0 <= file < files.len(),
        0 <= channel < files[file].channels@.len(),
        0 <= chunk < files[file].channels@[channel].chunks@.len(),
        0 <= index < files[file].channels@[channel].chunks@[chunk].sample_count,
    ensures
        ({
            let run = files[file].channels@[channel].chunks@[chunk];
            let time_ns = run.time_base_ns + index * run.sample_period_ns;
            let handed = handed_out(all_portions(files, wanted, span, 0), calls);
            times_covered(handed, file, channel, chunk, index) == (if selects(
                wanted,
                files[file].channels@[channel].name@,
            ) && span.start_ns <= time_ns && time_ns < span.end_ns {
                1nat
            } else {
                0
            })
        }),
{
    law_portions_are_handed_out_once(all_portions(files, wanted, span, 0), calls);
    law_samples_come_once(files, wanted, span, file, channel, chunk, index);
}

/// Whether a portion lies inside a chunk of the files and is neither empty nor too large.
pub open spec fn is_portion_of(segment: SampleSegment, files: Seq<SourceFile>) -> bool {
    &&& segment.file < files.len()
    &&& segment.channel < files[segment.file as int].channels@.len()
    &&& segment.chunk < files[segment.file as int].channels@[segment.channel as int].chunks@.len()
    &&& 1 <= segment.len <= VECTOR_SIZE
    &&& segment.local_start + segment.len
        <= files[segment.file as int].channels@[segment.channel as int].chunks@[
    segment.chunk as int].sample_count
}

/// Whether all portions lie inside chunks of the files and are neither empty nor too large.
pub open spec fn are_portions_of(segments: Seq<SampleSegment>, files: Seq<SourceFile>) -> bool {
    forall|i: int| 0 <= i < segments.len() ==> is_portion_of(#[trigger] segments[i], files)
}

proof fn lemma_portions_shape(
    file: int,
    channel: int,
    chunk: int,
    from: int,
    to: int,
    files: Seq<SourceFile>,
)
    requires
        files.len() <= usize::MAX,
        0 <= file < files.len(),
        0 <= channel < files[file].channels@.len(),
        0 <= chunk < files[file].channels@[channel].chunks@.len(),
        0 <= from,
        to <= files[file].channels@[channel].chunks@[chunk].sample_count,
    ensures
        are_portions_of(portions(file, channel, chunk, from, to), files),
    decreases to - from,
{
    if from < to {
        let len = if to - from < VECTOR_SIZE {
            to - from
        } else {
            VECTOR_SIZE as int
        };
        assert(files[file].channels.len() == files[file].channels@.len());
        assert(files[file].channels@[channel].chunks.len()
            == files[file].channels@[channel].chunks@.len());
        lemma_portions_shape(file, channel, chunk, from + len, to, files);
        let all = portions(file, channel, chunk, from, to);
        let rest = portions(file, channel, chunk, from + len, to);
        assert forall|i: int| 0 <= i < all.len() implies is_portion_of(
            #[trigger] all[i],
            files,
        ) by {
            if i > 0 {
                assert(all[i] == rest[i - 1]);
            }
        }
    }
}

proof fn lemma_shape_add(a: Seq<SampleSegment>, b: Seq<SampleSegment>, files: Seq<SourceFile>)
    requires
        are_portions_of(a, files),
        are_portions_of(b, files),
    ensures
        are_portions_of(a + b, files),
{
    assert forall|i: int| 0 <= i < (a + b).len() implies is_portion_of(
        #[trigger] (a + b)[i],
        files,
    ) by {
        if i < a.len() {
            assert((a + b)[i] == a[i]);
        } else {
            assert((a + b)[i] == b[i - a.len()]);
        }
    }
}

proof fn lemma_channel_shape(
    file: int,
    channel: int,
    span: Window,
    from: int,
    files: Seq<SourceFile>,
)
    requires
        files.len() <= usize::MAX,
        0 <= file < files.len(),
        0 <= channel < files[file].channels@.len(),
        0 <= from,
        chunks_spaced(files[file].channels@[channel].chunks@, span),
    ensures
        are_portions_of(
            channel_portions(
                file,
                channel,
                files[file].channels@[channel].chunks@,
                span,
                from,
            ),
            files,
        ),
    decreases files[file].channels@[channel].chunks@.len() - from,
{
    let chunks = files[file].channels@[channel].chunks@;
    if from < chunks.len() {
        let run = chunks[from];
        assert(chunk_spaced(run, span));
        if span.start_ns > run.time_base_ns {
            lemma_quotient_up_bounds(
                span.start_ns - run.time_base_ns,
                run.sample_period_ns as int,
            );
        }
        let first = first_not_before(run, span.start_ns as int);
        let past_end = first_not_before(run, span.end_ns as int);
        lemma_portions_shape(file, channel, from, first, past_end, files);
        lemma_channel_shape(file, channel, span, from + 1, files);
        lemma_shape_add(
            portions(file, channel, from, first, past_end),
            channel_portions(file, channel, chunks, span, from + 1),
            files,
        );
    }
}

proof fn lemma_file_shape(
    file: int,
    wanted: Seq<Seq<char>>,
    span: Window,
    from: int,
    files: Seq<SourceFile>,
)
    requires
        files.len() <= usize::MAX,
        all_spaced(files, wanted, span),
        0 <= file < files.len(),
        0 <= from,
    ensures
        are_portions_of(file_portions(file, files[file].channels@, wanted, span, from), files),
    decreases files[file].channels@.len() - from,
{
    let channels = files[file].channels@;
    if from < channels.len() {
        assert(selection_spaced(files[file].channels@, wanted, span));
        if selects(wanted, channels[from].name@) {
            lemma_channel_shape(file, from, span, 0, files);
        }
        lemma_file_shape(file, wanted, span, from + 1, files);
        let own = if selects(wanted, channels[from].name@) {
            channel_portions(file, from, channels[from].chunks@, span, 0)
        } else {
            Seq::empty()
        };
        lemma_shape_add(own, file_portions(file, channels, wanted, span, from + 1), files);
    }
}

/// Every portion lies inside a chunk and holds at least one and at most 2048 samples.
pub proof fn law_portions_fit(
    files: Seq<SourceFile>,
    wanted: Seq<Seq<char>>,
    span: Window,
    from: int,
)
    requires
        files.len() <= usize::MAX,
        all_spaced(files, wanted, span),
        0 <= from,
    ensures
        are_portions_of(all_portions(files, wanted, span, from), files),
    decreases files.len() - from,
{
    if from < files.len() {
        lemma_file_shape(from, wanted, span, 0, files);
        law_portions_fit(files, wanted, span, from + 1);
        lemma_shape_add(
            file_portions(from, files[from].channels@, wanted, span, 0),
            all_portions(files, wanted, span, from + 1),
            files,
        );
    }
}

// ---------------------------------------------------------------------------------------
// Rows
// ---------------------------------------------------------------------------------------
/// What stands in a column of the `row`-th row of a portion; `ordinal` is the place of the
/// portion among all.
pub open spec fn sample_cell_of(
    file: SourceFile,
    rules: Seq<Rule>,
    segment: SampleSegment,
    ordinal: usize,
    column: u64,
    row: u64,
) -> CellModel {
    let channel = file.channels@[segment.channel as int];
    let chunk = channel.chunks@[segment.chunk as int];
    let index = (segment.local_start + row) as u64;
    let unit = mapped_unit(rules, channel.name@, channel.unit@, channel.unit_source);
    if column == 0 {
        CellModel::Text(file.path@)
    } else if column == 1 {
        CellModel::Text(file.format@)
    } else if column == 2 {
        CellModel::Unsigned32(channel.id)
    } else if column == 3 {
        CellModel::Text(mapped_name(rules, channel.name@))
    } else if column == 4 {
        CellModel::Text(unit.0)
    } else if column == 5 {
        CellModel::Text(unit.1.label())
    } else if column == 6 {
        CellModel::Ratio { numerator: 1_000_000_000, denominator: chunk.sample_period_ns }
    } else if column == 7 {
        CellModel::Unsigned((chunk.sample_base + index) as u64)
    } else if column == 8 {
        CellModel::SampleTime { channel: segment.channel, chunk: segment.chunk, index }
    } else if column == 9 {
        CellModel::Sample {
            channel: segment.channel,
            chunk: segment.chunk,
            index,
            conversion: mapped_conversion(rules, channel.name@),
        }
    } else {
        CellModel::Signed(ordinal as i64)
    }
}

/// A row of a portion is the sample with its number: its index counts on from the chunk's first
/// sample, its value is that sample's, and it is converted if and only if a rule for the channel
/// says so.
pub proof fn law_rows_are_their_samples(
    file: SourceFile,
    rules: Seq<Rule>,
    segment: SampleSegment,
    ordinal: usize,
    row: u64,
)
    requires
        file.channels@[segment.channel as int].chunks@[segment.chunk as int].sample_base
            + segment.local_start + row <= u64::MAX,
    ensures
        ({
            let channel = file.channels@[segment.channel as int];
            let chunk = channel.chunks@[segment.chunk as int];
            let value = sample_cell_of(file, rules, segment, ordinal, 9, row);
            &&& sample_cell_of(file, rules, segment, ordinal, 7, row) matches CellModel::Unsigned(n)
                && n == chunk.sample_base + segment.local_start + row
            &&& value matches CellModel::Sample { channel: c, chunk: k, index, conversion } && c
                == segment.channel && k == segment.chunk && index == segment.local_start + row
                && conversion == mapped_conversion(rules, channel.name@)
            &&& !has_rule(rules, channel.name@) ==> value->Sample_conversion is None
            &&& rule_named(rules, channel.name@) matches Some(rule)
                ==> !rule.conversion().changes_nothing() ==> value->Sample_conversion == Some(
                rule.conversion(),
            )
        }),
{
    law_lookup_finds_the_rule(rules, file.channels@[segment.channel as int].name@);
}

/// What stands in a column of a row of a portion.
pub fn sample_cell(
    file: &SourceFile,
    map: &ChannelMap,
    segment: &SampleSegment,
    ordinal: usize,
    column: u64,
    row: u64,
) -> (cell: Cell)
    requires
        segment.channel < file.channels@.len(),
        segment.chunk < file.channels@[segment.channel as int].chunks@.len(),
        segment.local_start + row <= u64::MAX,
        file.channels@[segment.channel as int].chunks@[segment.chunk as int].sample_base
            + segment.local_start + row <= u64::MAX,
    ensures
        cell@ == sample_cell_of(*file, map@, *segment, ordinal, column, row),
{
    let channel = &file.channels[segment.channel];
    let chunk = &channel.chunks[segment.chunk];
    let index: u64 = segment.local_start + row;
    match column {
        0 => text_cell(file.path.as_str()),
        1 => text_cell(file.format.as_str()),
        2 => Cell::Unsigned32(channel.id),
        3 => text_cell(map.name_for(channel.name.as_str())),
        4 => {
            let (unit, _) = map.unit_for(
                channel.name.as_str(),
                channel.unit.as_str(),
                channel.unit_source,
            );
            Cell::Text(unit)
        },
        5 => {
            let (_, source) = map.unit_for(
                channel.name.as_str(),
                channel.unit.as_str(),
                channel.unit_source,
            );
            text_cell(source.name())
        },
        6 => Cell::Ratio { numerator: 1_000_000_000, denominator: chunk.sample_period_ns },
        7 => Cell::Unsigned(chunk.sample_base + index),
        8 => Cell::SampleTime { channel: segment.channel, chunk: segment.chunk, index },
        9 => {
            let conversion = map.conversion_for(channel.name.as_str());
            Cell::Sample { channel: segment.channel, chunk: segment.chunk, index, conversion }
        },
        _ => Cell::Signed(ordinal as i64),
    }
}

} // verus!
