//! What holds of PDS recordings.
use crate::pds::chunks::RawChunk;
use crate::pds::definitions::Definition;
use crate::pds::file::{
    chunk_at, chunk_valid, chunks_in_a_row, chunks_of, current_sample, reading_at, samples_in,
    stored_count, time_in, value_at, Channel, Chunk, SampleValue,
};
use crate::sample::SampleType;
use vstd::prelude::*;

verus! {

// ---------------------------------------------------------------------------------------
// All samples are there
// ---------------------------------------------------------------------------------------
/// Whether a record of the chunk table has a sample that lies in the file.
pub open spec fn has_stored(record: RawChunk, width: nat, size: int) -> bool {
    record.sample_count > 0 && record.data_ptr + width <= size
}

/// Whether a chunk has all samples of a record that lie in the file: those that the record
/// tells of, or as many as there is room for.
pub open spec fn has_all_of(chunk: Chunk, record: RawChunk, width: nat, size: int) -> bool {
    &&& chunk.sample_period_ticks == record.sample_period_ticks
    &&& chunk.data_ptr == record.data_ptr
    &&& 0 < chunk.sample_count <= record.sample_count
    &&& chunk.data_ptr + chunk.sample_count * width <= size
    &&& chunk.sample_count == record.sample_count || chunk.data_ptr + (chunk.sample_count + 1)
        * width > size
}

/// The number of samples in chunks.
pub open spec fn count_of(chunks: Seq<Chunk>) -> nat
    decreases chunks.len(),
{
    if chunks.len() == 0 {
        0
    } else {
        count_of(chunks.drop_last()) + chunks.last().sample_count as nat
    }
}

/// The nanoseconds that chunks take, at a tenth of a microsecond to the tick.
pub open spec fn nanoseconds_of(chunks: Seq<Chunk>) -> nat
    decreases chunks.len(),
{
    if chunks.len() == 0 {
        0
    } else {
        nanoseconds_of(chunks.drop_last()) + chunks.last().sample_count as nat
            * chunks.last().sample_period_ticks as nat * 100
    }
}

/// A number, or the largest of 64 bits where it is larger.
pub open spec fn cut_off(n: nat) -> nat {
    if n <= 0xffff_ffff_ffff_ffff {
        n
    } else {
        0xffff_ffff_ffff_ffff
    }
}

proof fn lemma_stored_count(record: RawChunk, width: nat, size: int)
    requires
        0 < width,
        0 <= size,
    ensures
        ({
            let n = stored_count(record, width, size);
            &&& 0 <= n <= record.sample_count
            &&& n > 0 <==> has_stored(record, width, size)
            &&& n > 0 ==> record.data_ptr + n * width <= size
            &&& n == record.sample_count || record.data_ptr + (n + 1) * width > size
        }),
{
    let n = stored_count(record, width, size);
    let w = width as int;
    let space = if record.data_ptr <= size {
        size - record.data_ptr
    } else {
        0
    };
    let room = space / w;
    assert(0 <= room && room * w <= space < (room + 1) * w) by (nonlinear_arith)
        requires
            room == space / w,
            space >= 0,
            w > 0,
    ;
    assert(n * w <= room * w) by (nonlinear_arith)
        requires
            0 <= n <= room,
            w > 0,
    ;
    assert(room > 0 <==> w <= space) by (nonlinear_arith)
        requires
            room * w <= space < (room + 1) * w,
            w > 0,
            0 <= room,
    ;
}

/// No sample that a recording stores is left out: the chunks of a channel are those of its
/// records with a sample in the file, in the order of the table, and each has exactly the
/// samples that its record tells of, or as many as the file has room for.
pub proof fn law_no_stored_sample_is_left_out(raw: Seq<RawChunk>, width: nat, size: int)
    requires
        0 < width,
        0 <= size,
    ensures
        ({
            let records = raw.filter(|record: RawChunk| has_stored(record, width, size));
            let chunks = chunks_in_a_row(raw, width, size);
            &&& chunks.len() == records.len()
            &&& forall|k: int|
                0 <= k < records.len() ==> has_all_of(
                    #[trigger] chunks[k],
                    records[k],
                    width,
                    size,
                )
        }),
    decreases raw.len(),
{
    reveal(Seq::filter);
    if raw.len() > 0 {
        law_no_stored_sample_is_left_out(raw.drop_last(), width, size);
        lemma_stored_count(raw.last(), width, size);
    }
}

/// Chunks follow one another: each starts with the number of samples and at the time at which
/// those before it end.
pub proof fn law_chunks_follow_one_another(raw: Seq<RawChunk>, width: nat, size: int, k: int)
    requires
        0 < width,
        0 <= size,
        0 <= k <= chunks_in_a_row(raw, width, size).len(),
    ensures
        ({
            let chunks = chunks_in_a_row(raw, width, size);
            let before = chunks.take(k);
            &&& samples_in(before) == cut_off(count_of(before))
            &&& time_in(before) == cut_off(nanoseconds_of(before))
            &&& k < chunks.len() ==> chunks[k].sample_base == cut_off(count_of(before))
                && chunks[k].time_base_ns == cut_off(nanoseconds_of(before))
        }),
    decreases raw.len(), k,
{
    let chunks = chunks_in_a_row(raw, width, size);
    if raw.len() > 0 {
        let earlier = chunks_in_a_row(raw.drop_last(), width, size);
        lemma_stored_count(raw.last(), width, size);
        if k <= earlier.len() {
            law_chunks_follow_one_another(raw.drop_last(), width, size, k);
            assert(chunks.take(k) =~= earlier.take(k));
            if k == earlier.len() {
                assert(earlier.take(k) =~= earlier);
            }
        } else {
            law_chunks_follow_one_another(raw, width, size, k - 1);
            let last = chunks[k - 1];
            let before = chunks.take(k - 1);
            assert(chunks.take(k).drop_last() =~= before);
            assert(chunks.take(k).last() == last);
            let spent = last.sample_count * last.period_ns();
            assert(spent == last.sample_count as nat * last.sample_period_ticks as nat * 100)
                by (nonlinear_arith)
                requires
                    spent == last.sample_count * (last.sample_period_ticks * 100),
            ;
        }
    }
}

/// A channel has the samples of all its records and nothing else, one run after the other, and
/// tells how many they are and how long they take.
pub proof fn law_a_channel_has_all_its_samples(
    channel: Channel,
    definition: Definition,
    raw: Seq<RawChunk>,
    size: int,
)
    requires
        channel.is_channel_of(definition, raw, size),
        0 <= size,
    ensures
        ({
            let width = bytes_of(definition.sample_type);
            let records = raw.filter(|record: RawChunk| has_stored(record, width, size));
            &&& channel.chunks@.len() == records.len()
            &&& forall|k: int|
                0 <= k < records.len() ==> has_all_of(
                    #[trigger] channel.chunks@[k],
                    records[k],
                    width,
                    size,
                )
            &&& forall|k: int|
                0 <= k < records.len() ==> (#[trigger] channel.chunks@[k]).sample_base == cut_off(
                    count_of(channel.chunks@.take(k)),
                ) && channel.chunks@[k].time_base_ns == cut_off(
                    nanoseconds_of(channel.chunks@.take(k)),
                )
            &&& channel.sample_count == cut_off(count_of(channel.chunks@))
            &&& channel.duration_ns == cut_off(nanoseconds_of(channel.chunks@))
            &&& channel.id == definition.id
            &&& channel.name@ == definition.name
            &&& channel.unit@ == definition.unit
            &&& channel.sample_type == definition.sample_type
        }),
{
    let width = definition.sample_type.width();
    law_widths_hold_the_values(definition.sample_type);
    law_no_stored_sample_is_left_out(raw, width, size);
    let chunks = channel.chunks@;
    assert forall|k: int| 0 <= k < chunks.len() implies (#[trigger] chunks[k]).sample_base
        == cut_off(count_of(chunks.take(k))) && chunks[k].time_base_ns == cut_off(
        nanoseconds_of(chunks.take(k)),
    ) by {
        law_chunks_follow_one_another(raw, width, size, k);
    }
    law_chunks_follow_one_another(raw, width, size, chunks.len() as int);
    assert(chunks.take(chunks.len() as int) =~= chunks);
}

/// The bytes of one sample.
pub open spec fn bytes_of(sample_type: SampleType) -> nat {
    match sample_type {
        SampleType::U8 => 1,
        SampleType::I16 => 2,
        SampleType::U16 => 2,
        SampleType::I32 => 4,
        SampleType::U32 => 4,
        SampleType::F32 => 4,
        SampleType::F64 => 8,
    }
}

/// A sample takes as many bytes as its representation needs.
pub proof fn law_widths_hold_the_values(sample_type: SampleType)
    ensures
        sample_type.width() == bytes_of(sample_type),
{
}

/// The records of a channel are all records of the table that name it, in their order.
pub proof fn law_records_go_to_their_channel(raw: Seq<RawChunk>, id: u32)
    ensures
        chunks_of(raw, id) == raw.filter(|record: RawChunk| record.channel_id == id),
    decreases raw.len(),
{
    reveal(Seq::filter);
    if raw.len() > 0 {
        law_records_go_to_their_channel(raw.drop_last(), id);
    }
}

// ---------------------------------------------------------------------------------------
// Values at moments
// ---------------------------------------------------------------------------------------
/// Whether a value is the `i`-th sample of a chunk.
pub open spec fn is_sample_of(
    value: SampleValue,
    data: Seq<u8>,
    sample_type: SampleType,
    chunk: Chunk,
    i: int,
) -> bool {
    &&& 0 <= i < chunk.sample_count
    &&& value == value_at(data, sample_type, chunk.data_ptr + i * bytes_of(sample_type))
}

/// Whether a reading is the one at a moment in the `c`-th chunk, where the `i`-th sample is
/// current: the moment is not before that sample and before the time of the next; the blend, if
/// there is one, is with the next sample, and its elapsed time leads from the sample to the
/// moment.
pub open spec fn is_reading_in(
    reading: crate::pds::file::Reading,
    data: Seq<u8>,
    channel: Channel,
    time_ns: u64,
    linear: bool,
    c: int,
    i: int,
) -> bool {
    let chunk = channel.chunks@[c];
    let period = chunk.sample_period_ticks * 100;
    let sample_time = chunk.time_base_ns + i * period;
    &&& 0 <= c < channel.chunks@.len()
    &&& is_sample_of(reading.sample, data, channel.sample_type, chunk, i)
    &&& sample_time <= time_ns < sample_time + period
    &&& match reading.blend {
        Some(blend) => {
            &&& linear
            &&& channel.sample_type is F32 || channel.sample_type is F64
            &&& is_sample_of(blend.next, data, channel.sample_type, chunk, i + 1)
            &&& sample_time + blend.elapsed_ns == time_ns
            &&& blend.period_ns == period
        },
        None => {
            ||| !linear
            ||| !(channel.sample_type is F32 || channel.sample_type is F64)
            ||| i + 1 == chunk.sample_count
        },
    }
}

/// At every moment of a recording a channel's value is the sample that is current then, blended
/// with the next one in proportion to the time that has passed since, where blending is wanted
/// and possible.
pub proof fn law_readings_are_between_their_samples(
    data: Seq<u8>,
    channel: Channel,
    time_ns: u64,
    linear: bool,
)
    requires
        channel.valid(data.len() as int),
        channel.clock_fits(),
        time_ns < channel.duration_ns,
    ensures
        exists|c: int, i: int|
            #![trigger is_reading_in(
                reading_at(data, channel, time_ns, linear),
                data,
                channel,
                time_ns,
                linear,
                c,
                i,
            )]
            is_reading_in(
                reading_at(data, channel, time_ns, linear),
                data,
                channel,
                time_ns,
                linear,
                c,
                i,
            ),
{
    let chunks = channel.chunks@;
    let width = channel.sample_type.width();
    let size = data.len() as int;
    assert(chunks.len() > 0);
    lemma_first_after(chunks, time_ns, 0);
    let c = chunk_at(chunks, time_ns, 0);
    assert(chunks.last() == chunks[chunks.len() - 1]);
    assert(c < chunks.len()) by {
        if c >= chunks.len() {
            assert(chunks[chunks.len() - 1].time_end() <= time_ns);
        }
    }
    let chunk = chunks[c];
    assert(chunk_valid(chunks, c, width, size));
    if c > 0 {
        assert(chunks.take(c).last() == chunks[c - 1]);
        assert(chunks[c - 1].time_end() <= time_ns);
    }
    let p = chunk.period_ns();
    let gone = time_ns - chunk.time_base_ns;
    let i = current_sample(chunk, time_ns);
    let n = chunk.sample_count as int;
    assert(gone < n * p);
    assert(0 <= gone / p < n && (gone / p) * p <= gone < (gone / p) * p + p && gone % p == gone - (
    gone / p) * p) by (nonlinear_arith)
        requires
            0 <= gone < n * p,
            p > 0,
            n > 0,
    ;
    assert(i == gone / p);
    law_widths_hold_the_values(channel.sample_type);
    assert(is_reading_in(
        reading_at(data, channel, time_ns, linear),
        data,
        channel,
        time_ns,
        linear,
        c,
        i,
    ));
}

proof fn lemma_first_after(chunks: Seq<Chunk>, time_ns: u64, i: int)
    requires
        0 <= i <= chunks.len(),
    ensures
        ({
            let found = chunk_at(chunks, time_ns, i);
            &&& i <= found <= chunks.len()
            &&& found < chunks.len() ==> chunks[found].time_end() > time_ns
            &&& forall|k: int| i <= k < found ==> (#[trigger] chunks[k]).time_end() <= time_ns
        }),
    decreases chunks.len() - i,
{
    if i < chunks.len() && chunks[i].time_end() <= time_ns {
        lemma_first_after(chunks, time_ns, i + 1);
    }
}

/// A channel's clock can be counted exactly if no chunk takes longer than 64 bits can tell, and
/// its counts exactly if every chunk also ends within them, by samples and by time.
pub proof fn law_countable_channels(channel: Channel)
    ensures
        channel.clock_fits() <==> forall|i: int|
            0 <= i < channel.chunks@.len() ==> (#[trigger] channel.chunks@[i]).sample_count * (
            channel.chunks@[i].sample_period_ticks * 100) <= 0xffff_ffff_ffff_ffff,
        channel.counts_fit() <==> forall|i: int|
            0 <= i < channel.chunks@.len() ==> (#[trigger] channel.chunks@[i]).sample_base
                + channel.chunks@[i].sample_count <= 0xffff_ffff_ffff_ffff
                && channel.chunks@[i].time_base_ns + channel.chunks@[i].sample_count * (
            channel.chunks@[i].sample_period_ticks * 100) <= 0xffff_ffff_ffff_ffff,
{
    if channel.counts_fit() {
        assert forall|i: int| 0 <= i < channel.chunks@.len() implies (
        #[trigger] channel.chunks@[i]).sample_base + channel.chunks@[i].sample_count
            <= 0xffff_ffff_ffff_ffff && channel.chunks@[i].time_base_ns
            + channel.chunks@[i].sample_count * (channel.chunks@[i].sample_period_ticks * 100)
            <= 0xffff_ffff_ffff_ffff by {
            assert(crate::pds::file::chunk_counts_fit(channel.chunks@[i]));
        }
    }
}

} // verus!
