//! Result tables of PDS recordings.
use crate::cell::{text_cell, Cell, CellModel};
use crate::pds::file::{
    chunk_counts_fit, chunk_valid, reading_at, sample_position, value_at, Channel, Chunk, PdsFile,
    TICK_NS,
};
use crate::samples::SampleSegment;
use crate::source::{ChannelModel, SourceChannel, SourceChunk, SourceFile, UnitSource};
use vstd::prelude::*;

verus! {

/// A chunk with its spacing in nanoseconds.
pub open spec fn chunk_in_ns(chunk: Chunk) -> SourceChunk {
    SourceChunk {
        sample_period_ns: chunk.period_ns() as u64,
        sample_count: chunk.sample_count,
        data_ptr: chunk.data_ptr,
        sample_base: chunk.sample_base,
        time_base_ns: chunk.time_base_ns,
    }
}

/// A channel of a recording as a channel of any format. A recording does not tell where a
/// unit comes from.
pub open spec fn channel_in_ns(channel: Channel) -> ChannelModel {
    ChannelModel {
        id: channel.id,
        name: channel.name@,
        unit: channel.unit@,
        unit_source: UnitSource::Unknown,
        sample_type: channel.sample_type,
        chunks: Seq::new(channel.chunks@.len(), |i: int| chunk_in_ns(channel.chunks@[i])),
        sample_count: channel.sample_count,
        duration_ns: channel.duration_ns,
    }
}

impl Channel {
    /// This channel as a channel of any format.
    pub fn to_source(&self) -> (channel: SourceChannel)
        ensures
            channel@ == channel_in_ns(*self),
    {
        let mut chunks: Vec<SourceChunk> = Vec::new();
        let mut i: usize = 0;
        while i < self.chunks.len()
            invariant
                i <= self.chunks@.len(),
                chunks@ == Seq::new(i as nat, |k: int| chunk_in_ns(self.chunks@[k])),
            decreases self.chunks@.len() - i,
        {
            let chunk: Chunk = self.chunks[i];
            chunks.push(
                SourceChunk {
                    sample_period_ns: chunk.sample_period_ticks as u64 * TICK_NS,
                    sample_count: chunk.sample_count,
                    data_ptr: chunk.data_ptr,
                    sample_base: chunk.sample_base,
                    time_base_ns: chunk.time_base_ns,
                },
            );
            i = i + 1;
            assert(chunks@ =~= Seq::new(i as nat, |k: int| chunk_in_ns(self.chunks@[k])));
        }
        SourceChannel {
            id: self.id,
            name: self.name.clone(),
            unit: self.unit.clone(),
            unit_source: UnitSource::Unknown,
            sample_type: self.sample_type,
            chunks,
            sample_count: self.sample_count,
            duration_ns: self.duration_ns,
        }
    }
}

/// What stands in a column of the `row`-th row of a portion of a recording's samples; `ordinal`
/// is the place of the portion among all.
pub open spec fn pds_sample_cell_of(
    file: PdsFile<'_>,
    segment: SampleSegment,
    ordinal: usize,
    column: u64,
    row: u64,
) -> CellModel {
    let channel = file.channels@[segment.channel as int];
    let chunk = channel.chunks@[segment.chunk as int];
    let index = segment.local_start + row;
    if column == 0 {
        CellModel::Text(file.path@)
    } else if column == 1 {
        CellModel::Unsigned32(channel.id)
    } else if column == 2 {
        CellModel::Text(channel.name@)
    } else if column == 3 {
        CellModel::Text(channel.unit@)
    } else if column == 4 {
        CellModel::Ratio {
            numerator: 10_000_000,
            denominator: chunk.sample_period_ticks as u64,
        }
    } else if column == 5 {
        CellModel::Unsigned((chunk.sample_base + index) as u64)
    } else if column == 6 {
        CellModel::Signed((chunk.time_base_ns + index * chunk.period_ns()) as i64)
    } else if column == 7 {
        CellModel::Stored(
            value_at(
                file.data@,
                channel.sample_type,
                sample_position(channel.sample_type, chunk, index),
            ),
        )
    } else {
        CellModel::Signed(ordinal as i64)
    }
}

/// What stands in a column of the row of a channel of a recording; `ordinal` is the place of
/// the row.
pub open spec fn pds_channel_cell_of(
    file: PdsFile<'_>,
    channel: Channel,
    column: u64,
    ordinal: usize,
) -> CellModel {
    if column == 0 {
        CellModel::Text(file.path@)
    } else if column == 1 {
        CellModel::Unsigned32(channel.id)
    } else if column == 2 {
        CellModel::Text(channel.name@)
    } else if column == 3 {
        CellModel::Text(channel.unit@)
    } else if column == 4 {
        CellModel::Unsigned32(channel.sample_type.type_code())
    } else if column == 5 {
        CellModel::Text(channel.sample_type.reported_name())
    } else if column == 6 {
        if channel.chunks@.len() == 0 {
            CellModel::Null
        } else {
            CellModel::Ratio {
                numerator: 10_000_000,
                denominator: channel.chunks@[0].sample_period_ticks as u64,
            }
        }
    } else if column == 7 {
        if channel.chunks@.len() == 0 {
            CellModel::Null
        } else {
            CellModel::Unsigned(channel.chunks@[0].period_ns() as u64)
        }
    } else if column == 8 {
        CellModel::Unsigned(channel.sample_count)
    } else if column == 9 {
        CellModel::Unsigned(channel.chunks@.len() as u64)
    } else if column == 10 {
        CellModel::Unsigned(channel.duration_ns)
    } else {
        CellModel::Signed(ordinal as i64)
    }
}

/// What a cell of a wide table says once a recording's channel has been read for it.
pub open spec fn pds_wide_cell_of(file: PdsFile<'_>, cell: CellModel) -> CellModel {
    match cell {
        CellModel::Reading { channel, time_ns, linear, .. } => {
            let channel = file.channels@[channel as int];
            if time_ns >= channel.duration_ns {
                CellModel::Null
            } else {
                CellModel::Between(reading_at(file.data@, channel, time_ns, linear))
            }
        },
        _ => cell,
    }
}

impl PdsFile<'_> {
    /// This recording as a file of any format.
    pub fn to_source(&self) -> (file: SourceFile)
        ensures
            file.path@ == self.path@,
            file.format@ == "pds"@,
            file.channels@.len() == self.channels@.len(),
            forall|i: int|
                0 <= i < self.channels@.len() ==> (#[trigger] file.channels@[i])@ == channel_in_ns(
                    self.channels@[i],
                ),
            file.create_date_micros == 0,
            file.modified_at_micros == 0,
    {
        let mut channels: Vec<SourceChannel> = Vec::new();
        let mut i: usize = 0;
        while i < self.channels.len()
            invariant
                i <= self.channels@.len(),
                channels@.len() == i,
                forall|k: int|
                    0 <= k < i ==> (#[trigger] channels@[k])@ == channel_in_ns(self.channels@[k]),
            decreases self.channels@.len() - i,
        {
            channels.push(self.channels[i].to_source());
            i = i + 1;
        }
        SourceFile {
            path: self.path.clone(),
            format: "pds".to_owned(),
            channels,
            create_date_micros: 0,
            modified_at_micros: 0,
        }
    }

    /// What stands in a column of a row of a portion of this recording's samples.
    pub fn sample_cell(&self, segment: &SampleSegment, ordinal: usize, column: u64, row: u64)
        -> (cell: Cell)
        requires
            self.valid(),
            segment.channel < self.channels@.len(),
            segment.chunk < self.channels@[segment.channel as int].chunks@.len(),
            segment.local_start + row
                < self.channels@[segment.channel as int].chunks@[segment.chunk as int].sample_count,
            chunk_counts_fit(
                self.channels@[segment.channel as int].chunks@[segment.chunk as int],
            ),
        ensures
            cell@ == pds_sample_cell_of(*self, *segment, ordinal, column, row),
    {
        let channel = &self.channels[segment.channel];
        let chunk: Chunk = channel.chunks[segment.chunk];
        let index: u64 = segment.local_start + row;
        proof {
            let size = self.data@.len() as int;
            let width = channel.sample_type.width();
            assert(self.channels@[segment.channel as int].valid(size));
            assert(chunk_valid(channel.chunks@, segment.chunk as int, width, size));
            assert(index * width + width <= chunk.sample_count * width) by (nonlinear_arith)
                requires
                    index + 1 <= chunk.sample_count,
                    width >= 0,
            ;
            let p = chunk.period_ns();
            assert(0 <= index * p <= chunk.sample_count * p) by (nonlinear_arith)
                requires
                    0 <= index <= chunk.sample_count,
                    p >= 0,
            ;
        }
        match column {
            0 => text_cell(self.path.as_str()),
            1 => Cell::Unsigned32(channel.id),
            2 => text_cell(channel.name.as_str()),
            3 => text_cell(channel.unit.as_str()),
            4 => Cell::Ratio {
                numerator: 10_000_000,
                denominator: chunk.sample_period_ticks as u64,
            },
            5 => Cell::Unsigned(chunk.sample_base + index),
            6 => {
                let period: u64 = chunk.sample_period_ticks as u64 * TICK_NS;
                let time: u64 = chunk.time_base_ns + index * period;
                Cell::Signed(time as i64)
            },
            7 => Cell::Stored(self.decode(channel, &chunk, index)),
            _ => Cell::Signed(ordinal as i64),
        }
    }

    /// A cell of a wide table of this recording, read where it asks for a channel's value at a
    /// moment.
    pub fn wide_cell(&self, cell: Cell) -> (read: Cell)
        requires
            self.valid(),
            cell matches Cell::Reading { channel, conversion, .. } ==> channel
                < self.channels@.len() && self.channels@[channel as int].clock_fits()
                && conversion is None,
        ensures
            read@ == pds_wide_cell_of(*self, cell@),
    {
        match cell {
            Cell::Reading { channel, time_ns, linear, .. } => {
                assert(self.channels@[channel as int].valid(self.data@.len() as int));
                match self.sample_at(&self.channels[channel], time_ns, linear) {
                    Some(reading) => Cell::Between(reading),
                    None => Cell::Null,
                }
            },
            _ => cell,
        }
    }

    /// What stands in a column of the row of a channel of this recording.
    pub fn channel_cell(&self, channel: &Channel, column: u64, ordinal: usize) -> (cell: Cell)
        ensures
            cell@ == pds_channel_cell_of(*self, *channel, column, ordinal),
    {
        match column {
            0 => text_cell(self.path.as_str()),
            1 => Cell::Unsigned32(channel.id),
            2 => text_cell(channel.name.as_str()),
            3 => text_cell(channel.unit.as_str()),
            4 => Cell::Unsigned32(channel.sample_type.code()),
            5 => text_cell(channel.sample_type.name()),
            6 => match channel.first_period_ticks() {
                Some(ticks) => Cell::Ratio { numerator: 10_000_000, denominator: ticks as u64 },
                None => Cell::Null,
            },
            7 => match channel.first_period_ticks() {
                Some(ticks) => Cell::Unsigned(ticks as u64 * TICK_NS),
                None => Cell::Null,
            },
            8 => Cell::Unsigned(channel.sample_count),
            9 => Cell::Unsigned(channel.chunks.len() as u64),
            10 => Cell::Unsigned(channel.duration_ns),
            _ => Cell::Signed(ordinal as i64),
        }
    }
}

} // verus!
