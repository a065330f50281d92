//! A PDS recording: its channels and their samples.
use crate::pds::bytes::{u16_at, u16le, u32_at, u32le, u64_at, u64le};
use crate::pds::chunks::{chunk_plausible, chunk_table, parse_chunks, RawChunk};
use crate::pds::definitions::{
    definitions, marked_definitions, marker_defs, markerless_defs, unmarked_definitions, ChannelDef,
    Definition,
};
use crate::pds::directory::{
    directory, find_directory, find_layout, layout_from, DirEntry, Layout,
};
use crate::pds::error::{invalid, PdsError};
use crate::sample::SampleType;
use vstd::prelude::*;

verus! {

/// The length of one clock tick.
pub const TICK_NS: u64 = 100;

/// A run of evenly spaced samples.
#[derive(Debug, Clone, Copy, PartialEq, Eq, Structural)]
pub struct Chunk {
    pub sample_period_ticks: u32,
    pub sample_count: u64,
    pub data_ptr: u64,
    pub sample_base: u64,
    pub time_base_ns: u64,
}

/// A recorded channel.
#[derive(Debug, Clone)]
pub struct Channel {
    pub id: u32,
    pub name: String,
    pub unit: String,
    pub sample_type: SampleType,
    pub chunks: Vec<Chunk>,
    pub sample_count: u64,
    pub duration_ns: u64,
}

/// A recording, and the bytes of its file.
#[derive(Debug)]
pub struct PdsFile<'a> {
    pub path: String,
    pub channels: Vec<Channel>,
    pub data: &'a [u8],
}

/// A stored sample: an integer, or the bit pattern of an IEEE 754 number.
#[derive(Debug, Clone, Copy, PartialEq, Eq, Structural)]
pub enum SampleValue {
    Integer(i64),
    Single(u32),
    Double(u64),
}

/// The sample that follows, and how far between the two a moment lies.
#[derive(Debug, Clone, Copy, PartialEq, Eq, Structural)]
pub struct Blend {
    pub next: SampleValue,
    pub elapsed_ns: u64,
    pub period_ns: u64,
}

/// A channel's value at a moment: a sample, and what to blend it with.
#[derive(Debug, Clone, Copy, PartialEq, Eq, Structural)]
pub struct Reading {
    pub sample: SampleValue,
    pub blend: Option<Blend>,
}

// ---------------------------------------------------------------------------------------
// Chunks in a row
// ---------------------------------------------------------------------------------------
/// A number cut off at the largest 64-bit number.
pub open spec fn saturated(n: int) -> u64 {
    if n > u64::MAX {
        u64::MAX
    } else {
        n as u64
    }
}

impl Chunk {
    /// The time between two samples.
    pub open spec fn period_ns(self) -> int {
        self.sample_period_ticks * 100
    }

    /// The time that the samples take.
    pub open spec fn span_ns(self) -> int {
        self.sample_count * self.period_ns()
    }

    /// The index that follows the last sample.
    pub open spec fn sample_end(self) -> u64 {
        saturated(self.sample_base + self.sample_count)
    }

    /// The time at which the samples end.
    pub open spec fn time_end(self) -> u64 {
        saturated(self.time_base_ns + self.span_ns())
    }
}

/// The number of samples in chunks that stand in a row.
pub open spec fn samples_in(chunks: Seq<Chunk>) -> u64 {
    if chunks.len() == 0 {
        0
    } else {
        chunks.last().sample_end()
    }
}

/// The time that chunks in a row take.
pub open spec fn time_in(chunks: Seq<Chunk>) -> u64 {
    if chunks.len() == 0 {
        0
    } else {
        chunks.last().time_end()
    }
}

/// The samples of a chunk that lie in the file.
pub open spec fn stored_count(chunk: RawChunk, width: nat, size: int) -> int {
    let room = (if chunk.data_ptr <= size {
        size - chunk.data_ptr
    } else {
        0
    }) / width as int;
    if chunk.sample_count <= room {
        chunk.sample_count as int
    } else {
        room
    }
}

/// The chunks of a channel in table order: each is cut off at the end of the file, left out
/// where nothing remains, and starts where the one before it ends.
pub open spec fn chunks_in_a_row(raw: Seq<RawChunk>, width: nat, size: int) -> Seq<Chunk>
    decreases raw.len(),
{
    if raw.len() == 0 {
        Seq::empty()
    } else {
        let before = chunks_in_a_row(raw.drop_last(), width, size);
        let count = stored_count(raw.last(), width, size);
        if count == 0 {
            before
        } else {
            before.push(
                Chunk {
                    sample_period_ticks: raw.last().sample_period_ticks,
                    sample_count: count as u64,
                    data_ptr: raw.last().data_ptr,
                    sample_base: samples_in(before),
                    time_base_ns: time_in(before),
                },
            )
        }
    }
}

/// The records of the chunk table that name a channel.
pub open spec fn chunks_of(raw: Seq<RawChunk>, id: u32) -> Seq<RawChunk>
    decreases raw.len(),
{
    if raw.len() == 0 {
        Seq::empty()
    } else if raw.last().channel_id == id {
        chunks_of(raw.drop_last(), id).push(raw.last())
    } else {
        chunks_of(raw.drop_last(), id)
    }
}

/// Whether an earlier definition has the identifier of the `k`-th.
pub open spec fn id_taken(defs: Seq<Definition>, k: int) -> bool {
    exists|j: int| 0 <= j < k && (#[trigger] defs[j]).id == defs[k].id
}

/// The records of the chunk table that belong to the `k`-th definition: all that name its
/// identifier, unless an earlier definition has it too.
pub open spec fn chunks_for(defs: Seq<Definition>, raw: Seq<RawChunk>, k: int) -> Seq<RawChunk> {
    if id_taken(defs, k) {
        Seq::empty()
    } else {
        chunks_of(raw, defs[k].id)
    }
}

impl Channel {
    /// Whether this is the channel of a definition with the given chunk records.
    pub open spec fn is_channel_of(
        self,
        definition: Definition,
        raw: Seq<RawChunk>,
        size: int,
    ) -> bool {
        &&& self.id == definition.id
        &&& self.name@ == definition.name
        &&& self.unit@ == definition.unit
        &&& self.sample_type == definition.sample_type
        &&& self.chunks@ == chunks_in_a_row(raw, definition.sample_type.width(), size)
        &&& self.sample_count == samples_in(self.chunks@)
        &&& self.duration_ns == time_in(self.chunks@)
    }

    /// Chunks have samples, stand in a row and lie in a file of the given size; the totals are
    /// theirs.
    pub open spec fn valid(self, size: int) -> bool {
        &&& chunks_valid(self.chunks@, self.sample_type.width(), size)
        &&& self.sample_count == samples_in(self.chunks@)
        &&& self.duration_ns == time_in(self.chunks@)
    }

    /// Whether the time that each chunk takes can be counted in nanoseconds.
    pub open spec fn clock_fits(self) -> bool {
        forall|i: int|
            0 <= i < self.chunks@.len() ==> (#[trigger] self.chunks@[i]).span_ns() <= u64::MAX
    }

    /// Whether samples and time can be counted up to the end of every chunk.
    pub open spec fn counts_fit(self) -> bool {
        forall|i: int|
            0 <= i < self.chunks@.len() ==> #[trigger] chunk_counts_fit(self.chunks@[i])
    }

    /// The clock ticks between the samples of the first chunk.
    pub fn first_period_ticks(&self) -> (ticks: Option<u32>)
        ensures
            ticks == (if self.chunks@.len() == 0 {
                None
            } else {
                Some(self.chunks@[0].sample_period_ticks)
            }),
    {
        if self.chunks.len() == 0 {
            None
        } else {
            Some(self.chunks[0].sample_period_ticks)
        }
    }

    /// Whether samples and time can be counted up to the end of every chunk.
    pub fn has_countable_samples(&self) -> (fits: bool)
        ensures
            fits == self.counts_fit(),
    {
        let mut i: usize = 0;
        while i < self.chunks.len()
            invariant
                i <= self.chunks@.len(),
                forall|k: int| 0 <= k < i ==> #[trigger] chunk_counts_fit(self.chunks@[k]),
            decreases self.chunks@.len() - i,
        {
            let chunk: Chunk = self.chunks[i];
            let period: u64 = chunk.sample_period_ticks as u64 * TICK_NS;
            let end: Option<u64> = match chunk.sample_count.checked_mul(period) {
                Some(span) => chunk.time_base_ns.checked_add(span),
                None => None,
            };
            if end.is_none() || chunk.sample_base.checked_add(chunk.sample_count).is_none() {
                assert(!chunk_counts_fit(self.chunks@[i as int]));
                return false;
            }
            i = i + 1;
        }
        true
    }

    /// Whether the time that each chunk takes can be counted in nanoseconds.
    pub fn has_countable_clock(&self) -> (fits: bool)
        ensures
            fits == self.clock_fits(),
    {
        let mut i: usize = 0;
        while i < self.chunks.len()
            invariant
                i <= self.chunks@.len(),
                forall|k: int|
                    0 <= k < i ==> (#[trigger] self.chunks@[k]).span_ns() <= u64::MAX,
            decreases self.chunks@.len() - i,
        {
            let chunk: Chunk = self.chunks[i];
            let period: u64 = chunk.sample_period_ticks as u64 * TICK_NS;
            if chunk.sample_count.checked_mul(period).is_none() {
                assert(self.chunks@[i as int].span_ns() > u64::MAX);
                return false;
            }
            i = i + 1;
        }
        true
    }
}

/// Whether samples and time can be counted up to the end of a chunk.
pub open spec fn chunk_counts_fit(chunk: Chunk) -> bool {
    &&& chunk.sample_base + chunk.sample_count <= u64::MAX
    &&& chunk.time_base_ns + chunk.span_ns() <= u64::MAX
}

/// Each chunk has spaced samples that lie in the file, and starts where the one before ends.
pub open spec fn chunks_valid(chunks: Seq<Chunk>, width: nat, size: int) -> bool {
    forall|i: int| 0 <= i < chunks.len() ==> #[trigger] chunk_valid(chunks, i, width, size)
}

/// The `i`-th chunk has spaced samples that lie in the file, and starts where the one before
/// it ends.
pub open spec fn chunk_valid(chunks: Seq<Chunk>, i: int, width: nat, size: int) -> bool {
    &&& chunks[i].sample_count > 0
    &&& chunks[i].sample_period_ticks > 0
    &&& chunks[i].data_ptr + chunks[i].sample_count * width <= size
    &&& chunks[i].sample_base == samples_in(chunks.take(i))
    &&& chunks[i].time_base_ns == time_in(chunks.take(i))
}

proof fn lemma_row_valid(raw: Seq<RawChunk>, width: nat, size: int)
    requires
        0 < width,
        0 <= size,
        forall|i: int| 0 <= i < raw.len() ==> chunk_plausible(#[trigger] raw[i], size),
    ensures
        chunks_valid(chunks_in_a_row(raw, width, size), width, size),
    decreases raw.len(),
{
    if raw.len() > 0 {
        let before = chunks_in_a_row(raw.drop_last(), width, size);
        let all = chunks_in_a_row(raw, width, size);
        assert forall|i: int| 0 <= i < raw.drop_last().len() implies chunk_plausible(
            #[trigger] raw.drop_last()[i],
            size,
        ) by {
            assert(raw.drop_last()[i] == raw[i]);
        }
        lemma_row_valid(raw.drop_last(), width, size);
        let count = stored_count(raw.last(), width, size);
        assert(chunk_plausible(raw[raw.len() - 1], size));
        assert(0 <= count && count * width <= size - raw.last().data_ptr) by (nonlinear_arith)
            requires
                0 < width,
                0 <= raw.last().data_ptr <= size,
                0 <= raw.last().sample_count,
                count == (if raw.last().sample_count <= (size - raw.last().data_ptr) / (
                width as int) {
                    raw.last().sample_count as int
                } else {
                    (size - raw.last().data_ptr) / (width as int)
                }),
        ;
        if count > 0 {
            assert forall|i: int| 0 <= i < all.len() implies #[trigger] chunk_valid(
                all,
                i,
                width,
                size,
            ) by {
                assert(all.take(i) =~= before.take(i));
                if i < before.len() {
                    assert(chunk_valid(before, i, width, size));
                } else {
                    assert(before.take(i) =~= before);
                }
            }
        }
    }
}

proof fn lemma_chunks_of_plausible(raw: Seq<RawChunk>, id: u32, size: int)
    requires
        forall|i: int| 0 <= i < raw.len() ==> chunk_plausible(#[trigger] raw[i], size),
    ensures
        forall|i: int|
            0 <= i < chunks_of(raw, id).len() ==> chunk_plausible(
                #[trigger] chunks_of(raw, id)[i],
                size,
            ),
    decreases raw.len(),
{
    if raw.len() > 0 {
        assert forall|i: int| 0 <= i < raw.drop_last().len() implies chunk_plausible(
            #[trigger] raw.drop_last()[i],
            size,
        ) by {
            assert(raw.drop_last()[i] == raw[i]);
        }
        lemma_chunks_of_plausible(raw.drop_last(), id, size);
        let before = chunks_of(raw.drop_last(), id);
        assert(chunk_plausible(raw[raw.len() - 1], size));
        assert forall|i: int| 0 <= i < chunks_of(raw, id).len() implies chunk_plausible(
            #[trigger] chunks_of(raw, id)[i],
            size,
        ) by {
            if i < before.len() {
                assert(chunks_of(raw, id)[i] == before[i]);
            }
        }
    }
}

// ---------------------------------------------------------------------------------------
// Recordings
// ---------------------------------------------------------------------------------------
/// The layout of a file that has one.
pub open spec fn file_layout(data: Seq<u8>) -> Option<Layout> {
    layout_from(directory(data), 0, data.len() as int)
}

/// Whether the file is an export: no marked definitions and at most 200 of the others.
pub open spec fn is_export_file(data: Seq<u8>, layout: Layout) -> bool {
    marked_definitions(data, layout).len() == 0 && layout.defs_count <= 200
}

/// The channel definitions of a file: the marked ones, or the unmarked where there are none.
pub open spec fn file_definitions(data: Seq<u8>, layout: Layout) -> Seq<Definition> {
    let marked = marked_definitions(data, layout);
    if marked.len() > 0 {
        marked
    } else {
        unmarked_definitions(data, layout, is_export_file(data, layout))
    }
}

/// Why a file cannot be understood, if it cannot.
pub open spec fn failure(data: Seq<u8>) -> Option<Seq<char>> {
    if data.len() < 0x100 {
        Some("file is smaller than 256 bytes"@)
    } else if directory(data).len() < 3 {
        Some("directory has fewer than three entries"@)
    } else {
        match file_layout(data) {
            None => Some("no valid definitions/chunk layout found"@),
            Some(layout) => if file_definitions(data, layout).len() == 0 {
                Some("no channel definitions found"@)
            } else {
                None
            },
        }
    }
}

/// Whether channels are those of a file: one for each definition, in order.
pub open spec fn are_channels_of(channels: Seq<Channel>, data: Seq<u8>) -> bool {
    let layout = file_layout(data)->0;
    let defs = file_definitions(data, layout);
    let raw = chunk_table(data, layout, is_export_file(data, layout));
    &&& channels.len() == defs.len()
    &&& forall|k: int|
        0 <= k < channels.len() ==> (#[trigger] channels[k]).is_channel_of(
            defs[k],
            chunks_for(defs, raw, k),
            data.len() as int,
        )
}

/// The sample that the bytes at a position store.
pub open spec fn value_at(data: Seq<u8>, sample_type: SampleType, at: int) -> SampleValue {
    match sample_type {
        SampleType::U8 => SampleValue::Integer(data[at] as i64),
        SampleType::I16 => SampleValue::Integer(signed(u16_at(data, at)->0 as int, 0x1_0000)),
        SampleType::U16 => SampleValue::Integer(u16_at(data, at)->0 as i64),
        SampleType::I32 => SampleValue::Integer(
            signed(u32_at(data, at)->0 as int, 0x1_0000_0000),
        ),
        SampleType::U32 => SampleValue::Integer(u32_at(data, at)->0 as i64),
        SampleType::F32 => SampleValue::Single(u32_at(data, at)->0),
        SampleType::F64 => SampleValue::Double(u64_at(data, at)->0),
    }
}

/// A number below `modulus` read in two's complement.
pub open spec fn signed(n: int, modulus: int) -> i64 {
    (if 2 * n < modulus {
        n
    } else {
        n - modulus
    }) as i64
}

/// The position of a sample's bytes.
pub open spec fn sample_position(sample_type: SampleType, chunk: Chunk, index: int) -> int {
    chunk.data_ptr + index * sample_type.width()
}

/// The first chunk from the `i`-th on that ends after a moment.
pub open spec fn chunk_at(chunks: Seq<Chunk>, time_ns: u64, i: int) -> int
    decreases chunks.len() - i,
{
    if i < 0 || i >= chunks.len() || chunks[i].time_end() > time_ns {
        i
    } else {
        chunk_at(chunks, time_ns, i + 1)
    }
}

/// The time since a chunk's first sample.
pub open spec fn elapsed_in(chunk: Chunk, time_ns: u64) -> int {
    if time_ns >= chunk.time_base_ns {
        time_ns - chunk.time_base_ns
    } else {
        0
    }
}

/// The sample of a chunk that is current at a moment.
pub open spec fn current_sample(chunk: Chunk, time_ns: u64) -> int {
    let passed = elapsed_in(chunk, time_ns) / chunk.period_ns();
    if passed < chunk.sample_count - 1 {
        passed
    } else {
        chunk.sample_count - 1
    }
}

/// A channel's value at a moment inside its duration: the current sample, blended with the
/// next one where that is wanted, the samples are floating-point numbers and there is one.
pub open spec fn reading_at(
    data: Seq<u8>,
    channel: Channel,
    time_ns: u64,
    linear: bool,
) -> Reading {
    let chunk = channel.chunks@[chunk_at(channel.chunks@, time_ns, 0)];
    let index = current_sample(chunk, time_ns);
    let sample = value_at(
        data,
        channel.sample_type,
        sample_position(channel.sample_type, chunk, index),
    );
    if linear && channel.sample_type.floating() && index + 1 < chunk.sample_count {
        Reading {
            sample,
            blend: Some(
                Blend {
                    next: value_at(
                        data,
                        channel.sample_type,
                        sample_position(channel.sample_type, chunk, index + 1),
                    ),
                    elapsed_ns: (elapsed_in(chunk, time_ns) % chunk.period_ns()) as u64,
                    period_ns: chunk.period_ns() as u64,
                },
            ),
        }
    } else {
        Reading { sample, blend: None }
    }
}

/// Chunks in a row end one after the other.
pub proof fn lemma_ends_ordered(chunks: Seq<Chunk>, width: nat, size: int, i: int, j: int)
    requires
        chunks_valid(chunks, width, size),
        0 <= i <= j < chunks.len(),
    ensures
        chunks[i].time_end() <= chunks[j].time_end(),
    decreases j - i,
{
    if i < j {
        lemma_ends_ordered(chunks, width, size, i, j - 1);
        assert(chunk_valid(chunks, j, width, size));
        assert(chunks.take(j).last() == chunks[j - 1]);
        let spent = chunks[j].sample_count * chunks[j].period_ns();
        assert(spent >= 0) by (nonlinear_arith)
            requires
                spent == chunks[j].sample_count * chunks[j].period_ns(),
                chunks[j].sample_count >= 0,
                chunks[j].period_ns() >= 0,
        ;
    }
}

proof fn lemma_chunk_at(chunks: Seq<Chunk>, time_ns: u64, i: int, found: int)
    requires
        0 <= i <= found < chunks.len(),
        chunks[found].time_end() > time_ns,
        forall|k: int| i <= k < found ==> (#[trigger] chunks[k]).time_end() <= time_ns,
    ensures
        chunk_at(chunks, time_ns, i) == found,
    decreases found - i,
{
    if i < found {
        lemma_chunk_at(chunks, time_ns, i + 1, found);
    }
}

/// A channel of integers is never blended, and no channel is unless that is wanted.
pub proof fn law_integers_are_stepwise(
    data: Seq<u8>,
    channel: Channel,
    time_ns: u64,
    linear: bool,
)
    ensures
        reading_at(data, channel, time_ns, linear).blend is Some ==> linear
            && channel.sample_type.floating(),
{
}

/// At the time of a sample a channel's value is that sample: the chunk that holds it is found,
/// it is the current one, and a blend with the next one has not begun.
pub proof fn law_samples_are_read_back(data: Seq<u8>, channel: Channel, c: int, i: int, linear: bool)
    requires
        channel.valid(data.len() as int),
        channel.counts_fit(),
        0 <= c < channel.chunks@.len(),
        0 <= i < channel.chunks@[c].sample_count,
    ensures
        ({
            let chunk = channel.chunks@[c];
            let time_ns = chunk.time_base_ns + i * chunk.period_ns();
            let reading = reading_at(data, channel, time_ns as u64, linear);
            &&& time_ns < channel.duration_ns
            &&& reading.sample == value_at(
                data,
                channel.sample_type,
                sample_position(channel.sample_type, chunk, i),
            )
            &&& reading.blend matches Some(blend) ==> blend.elapsed_ns == 0
        }),
{
    let chunks = channel.chunks@;
    let chunk = chunks[c];
    let width = channel.sample_type.width();
    let size = data.len() as int;
    let p = chunk.period_ns();
    let time_ns = chunk.time_base_ns + i * p;
    assert(chunk_valid(chunks, c, width, size));
    assert(chunk_counts_fit(chunk));
    assert(0 <= i * p < chunk.sample_count * p) by (nonlinear_arith)
        requires
            0 <= i < chunk.sample_count,
            p > 0,
    ;
    assert((i * p) / p == i && (i * p) % p == 0) by (nonlinear_arith)
        requires
            p > 0,
    ;
    assert forall|k: int| 0 <= k < c implies (#[trigger] chunks[k]).time_end() <= time_ns by {
        lemma_ends_ordered(chunks, width, size, k, c - 1);
        assert(chunks.take(c).last() == chunks[c - 1]);
    }
    lemma_chunk_at(chunks, time_ns as u64, 0, c);
    lemma_ends_ordered(chunks, width, size, c, chunks.len() - 1);
    assert(chunks.last() == chunks[chunks.len() - 1]);
}

/// The product of two numbers, cut off at the largest 64-bit number.
fn saturating_product(a: u64, b: u64) -> (product: u64)
    ensures
        product == saturated(a * b),
{
    match a.checked_mul(b) {
        Some(product) => product,
        None => u64::MAX,
    }
}

/// The records of the chunk table that name a channel.
fn select_chunks(raw: &Vec<RawChunk>, id: u32) -> (selected: Vec<RawChunk>)
    ensures
        selected@ == chunks_of(raw@, id),
{
    let mut selected: Vec<RawChunk> = Vec::new();
    let mut i: usize = 0;
    while i < raw.len()
        invariant
            i <= raw@.len(),
            selected@ == chunks_of(raw@.take(i as int), id),
        decreases raw@.len() - i,
    {
        assert(raw@.take(i + 1).drop_last() =~= raw@.take(i as int));
        if raw[i].channel_id == id {
            selected.push(raw[i]);
        }
        i = i + 1;
    }
    assert(raw@.take(i as int) =~= raw@);
    selected
}

/// Whether an earlier definition has the identifier of the `k`-th.
fn is_id_taken(defs: &Vec<ChannelDef>, k: usize) -> (taken: bool)
    requires
        k < defs@.len(),
    ensures
        taken == id_taken(definitions(defs@), k as int),
{
    let mut j: usize = 0;
    while j < k
        invariant
            j <= k < defs@.len(),
            forall|i: int|
                0 <= i < j ==> (#[trigger] definitions(defs@)[i]).id != definitions(
                    defs@,
                )[k as int].id,
        decreases k - j,
    {
        if defs[j].id == defs[k].id {
            assert(definitions(defs@)[j as int].id == definitions(defs@)[k as int].id);
            return true;
        }
        j = j + 1;
    }
    false
}

/// Puts the chunks of a channel in a row.
fn build_channel(def: &ChannelDef, raw: &Vec<RawChunk>, size: usize) -> (channel: Channel)
    ensures
        channel.is_channel_of(def@, raw@, size as int),
{
    let width: u64 = def.sample_type.byte_width() as u64;
    let mut chunks: Vec<Chunk> = Vec::new();
    let mut sample_base: u64 = 0;
    let mut time_base_ns: u64 = 0;
    let mut i: usize = 0;
    while i < raw.len()
        invariant
            i <= raw@.len(),
            width == def.sample_type.width(),
            width > 0,
            chunks@ == chunks_in_a_row(raw@.take(i as int), width as nat, size as int),
            sample_base == samples_in(chunks@),
            time_base_ns == time_in(chunks@),
        decreases raw@.len() - i,
    {
        // Table order is kept: neither the position of the data nor any other field of a
        // record says when an interrupted recording went on.
        assert(raw@.take(i + 1).drop_last() =~= raw@.take(i as int));
        let chunk: RawChunk = raw[i];
        let max_count: u64 = (size as u64).saturating_sub(chunk.data_ptr) / width;
        let count: u64 = if chunk.sample_count <= max_count {
            chunk.sample_count
        } else {
            max_count
        };
        if count != 0 {
            let added = Chunk {
                sample_period_ticks: chunk.sample_period_ticks,
                sample_count: count,
                data_ptr: chunk.data_ptr,
                sample_base,
                time_base_ns,
            };
            chunks.push(added);
            sample_base = sample_base.saturating_add(count);
            let span: u64 = saturating_product(
                count,
                chunk.sample_period_ticks as u64 * TICK_NS,
            );
            time_base_ns = time_base_ns.saturating_add(span);
        }
        i = i + 1;
    }
    assert(raw@.take(i as int) =~= raw@);
    Channel {
        id: def.id,
        name: def.name.clone(),
        unit: def.unit.clone(),
        sample_type: def.sample_type,
        chunks,
        sample_count: sample_base,
        duration_ns: time_base_ns,
    }
}

impl<'a> PdsFile<'a> {
    /// Every channel has its samples inside the file and its chunks in a row.
    pub open spec fn valid(&self) -> bool {
        forall|k: int|
            0 <= k < self.channels@.len() ==> (#[trigger] self.channels@[k]).valid(
                self.data@.len() as int,
            )
    }

    /// Reads the recording in the bytes of the file at `path`.
    pub fn open(path: &str, data: &'a [u8]) -> (opened: Result<PdsFile<'a>, PdsError>)
        ensures
            match opened {
                Ok(file) => failure(data@) is None && file.path@ == path@ && file.data@ == data@
                    && are_channels_of(file.channels@, data@) && file.valid(),
                Err(error) => failure(data@) matches Some(message) && error.says_invalid(
                    path@,
                    message,
                ),
            },
    {
        if data.len() < 0x100 {
            return Err(invalid(path, "file is smaller than 256 bytes"));
        }
        let entries: Vec<DirEntry> = find_directory(data);
        if entries.len() < 3 {
            return Err(invalid(path, "directory has fewer than three entries"));
        }
        let layout: Layout = match find_layout(entries.as_slice(), data.len(), path) {
            Ok(layout) => layout,
            Err(error) => return Err(error),
        };
        let marked = marker_defs(data, layout);
        let is_export: bool = marked.len() == 0 && layout.defs_count <= 200;
        let defs: Vec<ChannelDef> = if marked.len() == 0 {
            markerless_defs(data, layout, is_export)
        } else {
            marked
        };
        if defs.len() == 0 {
            return Err(invalid(path, "no channel definitions found"));
        }
        let raw = parse_chunks(data, layout, is_export);
        let ghost all = definitions(defs@);
        assert(all == file_definitions(data@, layout));
        let mut channels: Vec<Channel> = Vec::new();
        let mut k: usize = 0;
        while k < defs.len()
            invariant
                k <= defs@.len(),
                all == definitions(defs@),
                channels@.len() == k,
                forall|i: int|
                    0 <= i < raw@.len() ==> chunk_plausible(
                        #[trigger] raw@[i],
                        data@.len() as int,
                    ),
                forall|i: int|
                    0 <= i < k ==> (#[trigger] channels@[i]).is_channel_of(
                        all[i],
                        chunks_for(all, raw@, i),
                        data@.len() as int,
                    ) && channels@[i].valid(data@.len() as int),
            decreases defs@.len() - k,
        {
            let own: Vec<RawChunk> = if is_id_taken(&defs, k) {
                Vec::new()
            } else {
                select_chunks(&raw, defs[k].id)
            };
            proof {
                assert(own@ == chunks_for(all, raw@, k as int));
                lemma_chunks_of_plausible(raw@, defs@[k as int].id, data@.len() as int);
                lemma_row_valid(own@, defs@[k as int].sample_type.width(), data@.len() as int);
            }
            channels.push(build_channel(&defs[k], &own, data.len()));
            k = k + 1;
        }
        Ok(PdsFile { path: path.to_owned(), channels, data })
    }

    /// Reads one sample of a chunk.
    pub fn decode(&self, channel: &Channel, chunk: &Chunk, local_index: u64) -> (value: SampleValue)
        requires
            sample_position(channel.sample_type, *chunk, local_index as int)
                + channel.sample_type.width() <= self.data@.len(),
        ensures
            value == value_at(
                self.data@,
                channel.sample_type,
                sample_position(channel.sample_type, *chunk, local_index as int),
            ),
    {
        let width: usize = channel.sample_type.byte_width();
        let total: usize = self.data.len();
        assert(local_index * width >= local_index) by (nonlinear_arith)
            requires
                width >= 1,
                local_index >= 0,
        ;
        let offset: usize = chunk.data_ptr as usize + local_index as usize * width;
        let data: &[u8] = self.data;
        match channel.sample_type {
            SampleType::U8 => SampleValue::Integer(data[offset] as i64),
            SampleType::I16 => {
                let raw: i64 = match u16le(data, offset) {
                    Some(raw) => raw as i64,
                    None => 0,
                };
                SampleValue::Integer(
                    if raw < 0x8000 {
                        raw
                    } else {
                        raw - 0x1_0000
                    },
                )
            },
            SampleType::U16 => {
                let raw: i64 = match u16le(data, offset) {
                    Some(raw) => raw as i64,
                    None => 0,
                };
                SampleValue::Integer(raw)
            },
            SampleType::I32 => {
                let raw: i64 = match u32le(data, offset) {
                    Some(raw) => raw as i64,
                    None => 0,
                };
                SampleValue::Integer(
                    if raw < 0x8000_0000 {
                        raw
                    } else {
                        raw - 0x1_0000_0000
                    },
                )
            },
            SampleType::U32 => {
                let raw: i64 = match u32le(data, offset) {
                    Some(raw) => raw as i64,
                    None => 0,
                };
                SampleValue::Integer(raw)
            },
            SampleType::F32 => {
                let bits: u32 = match u32le(data, offset) {
                    Some(bits) => bits,
                    None => 0,
                };
                SampleValue::Single(bits)
            },
            SampleType::F64 => {
                let bits: u64 = match u64le(data, offset) {
                    Some(bits) => bits,
                    None => 0,
                };
                SampleValue::Double(bits)
            },
        }
    }

    /// A channel's value at a moment: nothing at and after the end of the recording.
    pub fn sample_at(&self, channel: &Channel, time_ns: u64, linear: bool) -> (reading: Option<
        Reading,
    >)
        requires
            channel.valid(self.data@.len() as int),
            channel.clock_fits(),
        ensures
            reading == (if time_ns >= channel.duration_ns {
                None
            } else {
                Some(reading_at(self.data@, *channel, time_ns, linear))
            }),
    {
        let count: usize = channel.chunks.len();
        if time_ns >= channel.duration_ns || count == 0 {
            return None;
        }
        let ghost chunks = channel.chunks@;
        let ghost width = channel.sample_type.width();
        let ghost size = self.data@.len() as int;
        // The first chunk that ends after the moment lies between `lo` and `hi`.
        let mut lo: usize = 0;
        let mut hi: usize = count - 1;
        while lo < hi
            invariant
                channel.valid(size),
                channel.clock_fits(),
                chunks == channel.chunks@,
                width == channel.sample_type.width(),
                lo <= hi < chunks.len(),
                chunks[hi as int].time_end() > time_ns,
                forall|k: int| 0 <= k < lo ==> (#[trigger] chunks[k]).time_end() <= time_ns,
            decreases hi - lo,
        {
            let middle: usize = lo + (hi - lo) / 2;
            let probe: Chunk = channel.chunks[middle];
            assert(chunks[middle as int].span_ns() <= u64::MAX);
            let span: u64 = probe.sample_count * (probe.sample_period_ticks as u64 * TICK_NS);
            if probe.time_base_ns.saturating_add(span) <= time_ns {
                proof {
                    assert forall|k: int| 0 <= k < middle + 1 implies (
                    #[trigger] chunks[k]).time_end() <= time_ns by {
                        lemma_ends_ordered(chunks, width, size, k, middle as int);
                    }
                }
                lo = middle + 1;
            } else {
                hi = middle;
            }
        }
        proof {
            lemma_chunk_at(chunks, time_ns, 0, lo as int);
            assert(chunk_valid(chunks, lo as int, width, size));
        }
        let chunk: Chunk = channel.chunks[lo];
        let period_ns: u64 = chunk.sample_period_ticks as u64 * TICK_NS;
        let relative: u64 = time_ns.saturating_sub(chunk.time_base_ns);
        let passed: u64 = relative / period_ns;
        let sample: u64 = if passed < chunk.sample_count - 1 {
            passed
        } else {
            chunk.sample_count - 1
        };
        assert(sample * width + width <= chunk.sample_count * width) by (nonlinear_arith)
            requires
                sample + 1 <= chunk.sample_count,
                width >= 0,
        ;
        let a: SampleValue = self.decode(channel, &chunk, sample);
        if !linear || !channel.sample_type.is_float() || sample + 1 >= chunk.sample_count {
            return Some(Reading { sample: a, blend: None });
        }
        assert((sample + 1) * width + width <= chunk.sample_count * width) by (nonlinear_arith)
            requires
                sample + 2 <= chunk.sample_count,
                width >= 0,
        ;
        let b: SampleValue = self.decode(channel, &chunk, sample + 1);
        Some(
            Reading {
                sample: a,
                blend: Some(Blend { next: b, elapsed_ns: relative % period_ns, period_ns }),
            },
        )
    }
}

} // verus!
