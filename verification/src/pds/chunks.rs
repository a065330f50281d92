//! The chunk table of a PDS file.
use crate::pds::bytes::{u32_at, u32_or, u32le, u32le_or};
use crate::pds::directory::Layout;
use vstd::prelude::*;

verus! {

/// One record of the chunk table.
#[derive(Debug, Clone, Copy, PartialEq, Eq, Structural)]
pub struct RawChunk {
    pub channel_id: u32,
    pub sample_period_ticks: u32,
    pub sample_count: u64,
    pub data_ptr: u64,
}

/// The width of a record of the chunk table.
pub open spec fn record_width(layout: Layout) -> int {
    (layout.next_offset - layout.chunk_offset) / layout.chunk_count as int
}

/// Whether the two copies of the channel identifier agree and there are samples.
pub open spec fn head_agrees(data: Seq<u8>, at: int) -> bool {
    u32_at(data, at + 4) == u32_at(data, at + 8) && u32_or(data, at + 0x1c, 0) > 0
}

/// Whether a record with a channel identifier stands at a position.
pub open spec fn is_record_head(data: Seq<u8>, at: int) -> bool {
    at + 0x3c <= data.len() && u32_or(data, at + 4, 0) > 0 && head_agrees(data, at)
}

/// The first of the positions `from`, `from + 4`, ... below `to` at which a record stands.
pub open spec fn first_record_head(data: Seq<u8>, from: int, to: int) -> Option<int>
    decreases to - from + 3,
{
    if from >= to {
        None
    } else if is_record_head(data, from) {
        Some(from)
    } else {
        first_record_head(data, from + 4, to)
    }
}

/// The earliest record of an unbroken run that ends at `at` and does not start before `floor`.
pub open spec fn run_start(data: Seq<u8>, at: int, floor: int, width: int) -> int
    decreases at - floor,
{
    if width > 0 && at >= floor + width && head_agrees(data, at - width) {
        run_start(data, at - width, floor, width)
    } else {
        at
    }
}

/// The chunk that the record at a position describes, if it describes one.
pub open spec fn native_chunk(data: Seq<u8>, at: int, is_export: bool) -> Option<RawChunk> {
    let channel_id = u32_or(data, at + 4, 0);
    let period = u32_or(data, at + 0x18, 0);
    let count = u32_or(data, at + 0x1c, 0);
    let ptr = u32_or(data, at + 0x38, 0xffff_ffff);
    if channel_id == u32_or(data, at + 8, 0xffff_ffff) && (channel_id > 0 || is_export) && period
        > 0 && count > 0 && ptr < data.len() {
        Some(
            RawChunk {
                channel_id,
                sample_period_ticks: period,
                sample_count: count as u64,
                data_ptr: ptr as u64,
            },
        )
    } else {
        None
    }
}

/// The chunks that the `left` records from `at` on describe.
pub open spec fn native_from(
    data: Seq<u8>,
    at: int,
    width: int,
    left: nat,
    is_export: bool,
) -> Seq<RawChunk>
    decreases left,
{
    if left == 0 {
        Seq::empty()
    } else {
        let rest = native_from(data, at + width, width, (left - 1) as nat, is_export);
        match native_chunk(data, at, is_export) {
            Some(chunk) => seq![chunk] + rest,
            None => rest,
        }
    }
}

/// The position of the first record of a table with channel identifiers.
pub open spec fn table_start(data: Seq<u8>, layout: Layout, is_export: bool) -> Option<int> {
    let span = layout.next_offset - layout.chunk_offset;
    match first_record_head(
        data,
        layout.chunk_offset as int,
        layout.chunk_offset + (if span < 4096 {
            span
        } else {
            4096
        }),
    ) {
        Some(at) => Some(
            if is_export {
                run_start(data, at, layout.chunk_offset as int, record_width(layout))
            } else {
                at
            },
        ),
        None => None,
    }
}

/// The chunks of a table with channel identifiers.
pub open spec fn native_chunks(data: Seq<u8>, layout: Layout, is_export: bool) -> Seq<RawChunk> {
    match table_start(data, layout, is_export) {
        Some(start) => {
            let room = (layout.next_offset - start) / record_width(layout);
            native_from(
                data,
                start,
                record_width(layout),
                (if room < layout.chunk_count {
                    room
                } else {
                    layout.chunk_count as int
                }) as nat,
                is_export,
            )
        },
        None => Seq::empty(),
    }
}

/// The chunk that the record at a position describes in a table without channel identifiers;
/// records belong to the channels in turn.
pub open spec fn compact_chunk(data: Seq<u8>, at: int, index: int, layout: Layout) -> Option<
    RawChunk,
> {
    let period = u32_or(data, at + 0x18, 0);
    let count = u32_or(data, at + 0x1c, 0);
    let ptr = u32_or(data, at + 0x38, 0);
    let turn = if layout.defs_count > 0 {
        index % layout.defs_count as int
    } else {
        0
    };
    if period > 0 && count > 0 && 0 < ptr < data.len() {
        Some(
            RawChunk {
                channel_id: turn as u32,
                sample_period_ticks: period,
                sample_count: count as u64,
                data_ptr: ptr as u64,
            },
        )
    } else {
        None
    }
}

/// The chunks that the records from the `index`-th on describe in a table without channel
/// identifiers, up to the end of the file.
pub open spec fn compact_from(data: Seq<u8>, index: int, layout: Layout) -> Seq<RawChunk>
    decreases layout.chunk_count - index,
{
    let width = record_width(layout);
    let at = layout.chunk_offset + index * width;
    if index < 0 || index >= layout.chunk_count || at + width > data.len() {
        Seq::empty()
    } else {
        let rest = compact_from(data, index + 1, layout);
        match compact_chunk(data, at, index, layout) {
            Some(chunk) => seq![chunk] + rest,
            None => rest,
        }
    }
}

/// The chunks of a file, in table order.
pub open spec fn chunk_table(data: Seq<u8>, layout: Layout, is_export: bool) -> Seq<RawChunk> {
    if record_width(layout) < 0x3c {
        Seq::empty()
    } else {
        let native = native_chunks(data, layout, is_export);
        if native.len() > 0 {
            native
        } else {
            compact_from(data, 0, layout)
        }
    }
}

/// A chunk that can hold samples: it has some, they are spaced in time, and their first byte
/// lies in the file.
pub open spec fn chunk_plausible(chunk: RawChunk, size: int) -> bool {
    &&& 0 < chunk.sample_period_ticks
    &&& 0 < chunk.sample_count <= u32::MAX
    &&& chunk.data_ptr < size
}

proof fn lemma_native_plausible(data: Seq<u8>, at: int, width: int, left: nat, is_export: bool)
    ensures
        forall|i: int|
            0 <= i < native_from(data, at, width, left, is_export).len() ==> chunk_plausible(
                #[trigger] native_from(data, at, width, left, is_export)[i],
                data.len() as int,
            ),
    decreases left,
{
    if left > 0 {
        lemma_native_plausible(data, at + width, width, (left - 1) as nat, is_export);
        let rest = native_from(data, at + width, width, (left - 1) as nat, is_export);
        let all = native_from(data, at, width, left, is_export);
        if native_chunk(data, at, is_export) is Some {
            assert forall|i: int| 0 <= i < all.len() implies chunk_plausible(
                #[trigger] all[i],
                data.len() as int,
            ) by {
                if i > 0 {
                    assert(all[i] == rest[i - 1]);
                }
            }
        }
    }
}

proof fn lemma_compact_plausible(data: Seq<u8>, index: int, layout: Layout)
    ensures
        forall|i: int|
            0 <= i < compact_from(data, index, layout).len() ==> chunk_plausible(
                #[trigger] compact_from(data, index, layout)[i],
                data.len() as int,
            ),
    decreases layout.chunk_count - index,
{
    let width = record_width(layout);
    if 0 <= index < layout.chunk_count && layout.chunk_offset + index * width + width
        <= data.len() {
        lemma_compact_plausible(data, index + 1, layout);
        let rest = compact_from(data, index + 1, layout);
        let all = compact_from(data, index, layout);
        if compact_chunk(data, layout.chunk_offset + index * width, index, layout) is Some {
            assert forall|i: int| 0 <= i < all.len() implies chunk_plausible(
                #[trigger] all[i],
                data.len() as int,
            ) by {
                if i > 0 {
                    assert(all[i] == rest[i - 1]);
                }
            }
        }
    }
}

/// Every chunk of a table has samples that are spaced in time and start inside the file.
pub proof fn law_chunks_are_plausible(data: Seq<u8>, layout: Layout, is_export: bool)
    ensures
        forall|i: int|
            0 <= i < chunk_table(data, layout, is_export).len() ==> chunk_plausible(
                #[trigger] chunk_table(data, layout, is_export)[i],
                data.len() as int,
            ),
{
    lemma_compact_plausible(data, 0, layout);
    if let Some(start) = table_start(data, layout, is_export) {
        let room = (layout.next_offset - start) / record_width(layout);
        lemma_native_plausible(
            data,
            start,
            record_width(layout),
            (if room < layout.chunk_count {
                room
            } else {
                layout.chunk_count as int
            }) as nat,
            is_export,
        );
    }
}

/// Whether the two copies of the channel identifier agree and there are samples.
fn agrees(data: &[u8], at: usize) -> (result: bool)
    requires
        at + 0x20 <= usize::MAX,
    ensures
        result == head_agrees(data@, at as int),
{
    u32le(data, at + 4) == u32le(data, at + 8) && u32le_or(data, at + 0x1c, 0) > 0
}

/// The first of the positions `from`, `from + 4`, ... below `to` at which a record stands.
fn find_record_head(data: &[u8], from: usize, to: usize) -> (at: Option<usize>)
    requires
        to <= data@.len(),
    ensures
        match at {
            Some(at) => first_record_head(data@, from as int, to as int) == Some(at as int) && from
                <= at && at < to && is_record_head(data@, at as int),
            None => first_record_head(data@, from as int, to as int) is None,
        },
{
    let mut at: usize = from;
    while at < to
        invariant
            to <= data@.len(),
            from <= at,
            first_record_head(data@, from as int, to as int) == first_record_head(
                data@,
                at as int,
                to as int,
            ),
        decreases to - at,
    {
        if data.len() >= 0x3c && at <= data.len() - 0x3c {
            if u32le_or(data, at + 4, 0) > 0 && agrees(data, at) {
                return Some(at);
            }
        }
        if to - at <= 4 {
            assert(first_record_head(data@, at + 4, to as int) is None);
            return None;
        }
        at = at + 4;
    }
    None
}

/// Reads the chunks of a table with channel identifiers.
fn read_native(data: &[u8], layout: Layout, is_export: bool, width: usize) -> (chunks: Vec<
    RawChunk,
>)
    requires
        layout.valid(data@.len() as int),
        width == record_width(layout),
        width >= 0x3c,
    ensures
        chunks@ == native_chunks(data@, layout, is_export),
{
    let mut out: Vec<RawChunk> = Vec::new();
    let span: usize = layout.next_offset - layout.chunk_offset;
    let probe: usize = if span < 4096 {
        span
    } else {
        4096
    };
    let first: usize = match find_record_head(
        data,
        layout.chunk_offset,
        layout.chunk_offset + probe,
    ) {
        Some(first) => first,
        None => return out,
    };
    let mut start: usize = first;
    if is_export {
        while start - layout.chunk_offset >= width && agrees(data, start - width)
            invariant
                layout.chunk_offset <= start <= first < data@.len(),
                width >= 0x3c,
                run_start(data@, first as int, layout.chunk_offset as int, width as int)
                    == run_start(data@, start as int, layout.chunk_offset as int, width as int),
            decreases start,
        {
            start = start - width;
        }
    }
    let room: usize = (layout.next_offset - start) / width;
    let count: usize = if room < layout.chunk_count {
        room
    } else {
        layout.chunk_count
    };
    assert(count * width <= layout.next_offset - start) by (nonlinear_arith)
        requires
            count <= room,
            room == (layout.next_offset - start) / (width as int),
            width > 0,
    ;
    let ghost all = native_from(data@, start as int, width as int, count as nat, is_export);
    let mut pos: usize = start;
    let mut i: usize = 0;
    assert(out@ + all =~= all);
    while i < count
        invariant
            i <= count,
            pos == start + i * width,
            count * width <= layout.next_offset - start,
            layout.next_offset <= data@.len(),
            width >= 0x3c,
            out@ + native_from(data@, pos as int, width as int, (count - i) as nat, is_export)
                == all,
        decreases count - i,
    {
        assert((i + 1) * width <= count * width) by (nonlinear_arith)
            requires
                i < count,
        ;
        assert((i + 1) * width == i * width + width) by (nonlinear_arith);
        let ghost before = out@;
        let ghost rest = native_from(
            data@,
            pos + width,
            width as int,
            (count - i - 1) as nat,
            is_export,
        );
        let channel_id: u32 = u32le_or(data, pos + 4, 0);
        let duplicate: u32 = u32le_or(data, pos + 8, 0xffff_ffff);
        let period: u32 = u32le_or(data, pos + 0x18, 0);
        let samples: u32 = u32le_or(data, pos + 0x1c, 0);
        let ptr: u32 = u32le_or(data, pos + 0x38, 0xffff_ffff);
        if channel_id == duplicate && (channel_id > 0 || is_export) && period > 0 && samples > 0
            && (ptr as u64) < data.len() as u64 {
            let chunk = RawChunk {
                channel_id,
                sample_period_ticks: period,
                sample_count: samples as u64,
                data_ptr: ptr as u64,
            };
            out.push(chunk);
            assert(before + (seq![chunk] + rest) =~= out@ + rest);
        }
        pos = pos + width;
        i = i + 1;
    }
    assert(out@ + Seq::<RawChunk>::empty() =~= out@);
    out
}

/// Reads the chunks of a table without channel identifiers.
fn read_compact(data: &[u8], layout: Layout, width: usize) -> (chunks: Vec<RawChunk>)
    requires
        layout.valid(data@.len() as int),
        width == record_width(layout),
        width >= 0x3c,
    ensures
        chunks@ == compact_from(data@, 0, layout),
{
    let mut out: Vec<RawChunk> = Vec::new();
    let ghost span = layout.next_offset - layout.chunk_offset;
    assert(layout.chunk_count * width <= span) by (nonlinear_arith)
        requires
            width == span / (layout.chunk_count as int),
            layout.chunk_count > 0,
    ;
    let ghost all = compact_from(data@, 0, layout);
    let mut pos: usize = layout.chunk_offset;
    let mut i: usize = 0;
    assert(out@ + all =~= all);
    while i < layout.chunk_count
        invariant
            i <= layout.chunk_count,
            pos == layout.chunk_offset + i * width,
            layout.chunk_count * width <= span,
            span == layout.next_offset - layout.chunk_offset,
            layout.valid(data@.len() as int),
            width == record_width(layout),
            width >= 0x3c,
            out@ + compact_from(data@, i as int, layout) == all,
        decreases layout.chunk_count - i,
    {
        assert((i + 1) * width <= layout.chunk_count * width) by (nonlinear_arith)
            requires
                i < layout.chunk_count,
        ;
        assert((i + 1) * width == i * width + width) by (nonlinear_arith);
        let ghost before = out@;
        let ghost rest = compact_from(data@, i + 1, layout);
        let period: u32 = u32le_or(data, pos + 0x18, 0);
        let samples: u32 = u32le_or(data, pos + 0x1c, 0);
        let ptr: u32 = u32le_or(data, pos + 0x38, 0);
        if period > 0 && samples > 0 && ptr > 0 && (ptr as u64) < data.len() as u64 {
            let chunk = RawChunk {
                channel_id: (i % layout.defs_count) as u32,
                sample_period_ticks: period,
                sample_count: samples as u64,
                data_ptr: ptr as u64,
            };
            out.push(chunk);
            assert(before + (seq![chunk] + rest) =~= out@ + rest);
        }
        pos = pos + width;
        i = i + 1;
    }
    assert(out@ + Seq::<RawChunk>::empty() =~= out@);
    out
}

/// Reads the chunks of a file, in table order.
pub fn parse_chunks(data: &[u8], layout: Layout, is_export: bool) -> (chunks: Vec<RawChunk>)
    requires
        layout.valid(data@.len() as int),
    ensures
        chunks@ == chunk_table(data@, layout, is_export),
        forall|i: int|
            0 <= i < chunks@.len() ==> chunk_plausible(#[trigger] chunks@[i], data@.len() as int),
{
    proof {
        law_chunks_are_plausible(data@, layout, is_export);
    }
    let width: usize = (layout.next_offset - layout.chunk_offset) / layout.chunk_count;
    if width < 0x3c {
        return Vec::new();
    }
    let native = read_native(data, layout, is_export, width);
    if native.len() > 0 {
        return native;
    }
    // A table without channel identifiers interleaves the channels in definition order.
    let compact = read_compact(data, layout, width);
    assert(compact@ == chunk_table(data@, layout, is_export));
    compact
}

} // verus!
