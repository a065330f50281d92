//! Recorded channels, whatever the format of the file that holds them.
use crate::sample::SampleType;
use vstd::prelude::*;

verus! {

/// Where a channel's unit comes from.
#[derive(Debug, Clone, Copy, PartialEq, Eq, Structural)]
pub enum UnitSource {
    /// The file, or the caller, states it.
    Declared,
    /// The file format implies it.
    SpecDefault,
    /// There is none.
    Unknown,
}

impl UnitSource {
    /// The name under which the provenance is reported.
    pub open spec fn label(self) -> Seq<char> {
        match self {
            UnitSource::Declared => "declared"@,
            UnitSource::SpecDefault => "spec_default"@,
            UnitSource::Unknown => "unknown"@,
        }
    }

    /// The name under which the provenance is reported.
    pub fn name(self) -> (name: &'static str)
        ensures
            name@ == self.label(),
    {
        match self {
            UnitSource::Declared => "declared",
            UnitSource::SpecDefault => "spec_default",
            UnitSource::Unknown => "unknown",
        }
    }
}

/// A run of evenly spaced samples.
#[derive(Debug, Clone, Copy, PartialEq, Eq, Structural)]
pub struct SourceChunk {
    pub sample_period_ns: u64,
    pub sample_count: u64,
    pub data_ptr: u64,
    pub sample_base: u64,
    pub time_base_ns: u64,
}

/// A recorded channel.
#[derive(Debug, Clone)]
pub struct SourceChannel {
    pub id: u32,
    pub name: String,
    pub unit: String,
    pub unit_source: UnitSource,
    pub sample_type: SampleType,
    pub chunks: Vec<SourceChunk>,
    pub sample_count: u64,
    pub duration_ns: u64,
}

/// What a recorded channel is.
#[verifier::ext_equal]
pub struct ChannelModel {
    pub id: u32,
    pub name: Seq<char>,
    pub unit: Seq<char>,
    pub unit_source: UnitSource,
    pub sample_type: SampleType,
    pub chunks: Seq<SourceChunk>,
    pub sample_count: u64,
    pub duration_ns: u64,
}

impl View for SourceChannel {
    type V = ChannelModel;

    open spec fn view(&self) -> ChannelModel {
        ChannelModel {
            id: self.id,
            name: self.name@,
            unit: self.unit@,
            unit_source: self.unit_source,
            sample_type: self.sample_type,
            chunks: self.chunks@,
            sample_count: self.sample_count,
            duration_ns: self.duration_ns,
        }
    }
}

/// A file with its channels.
#[derive(Debug, Clone)]
pub struct SourceFile {
    pub path: String,
    pub format: String,
    pub channels: Vec<SourceChannel>,
    /// Microseconds since 1970.
    pub create_date_micros: i64,
    /// Microseconds since 1970.
    pub modified_at_micros: i64,
}

impl SourceChannel {
    /// The time between the samples of the first chunk.
    pub open spec fn leading_period(self) -> Option<u64> {
        if self.chunks@.len() == 0 {
            None
        } else {
            Some(self.chunks@[0].sample_period_ns)
        }
    }

    /// The time between the samples of the first chunk.
    pub fn first_period_ns(&self) -> (period: Option<u64>)
        ensures
            period == self.leading_period(),
    {
        if self.chunks.len() == 0 {
            None
        } else {
            Some(self.chunks[0].sample_period_ns)
        }
    }

    /// A copy of the channel.
    pub fn duplicate(&self) -> (copy: SourceChannel)
        ensures
            copy@ == self@,
    {
        let mut chunks: Vec<SourceChunk> = Vec::new();
        let mut i: usize = 0;
        while i < self.chunks.len()
            invariant
                i <= self.chunks@.len(),
                chunks@ == self.chunks@.take(i as int),
            decreases self.chunks@.len() - i,
        {
            chunks.push(self.chunks[i]);
            i = i + 1;
        }
        assert(chunks@ =~= self.chunks@);
        SourceChannel {
            id: self.id,
            name: self.name.clone(),
            unit: self.unit.clone(),
            unit_source: self.unit_source,
            sample_type: self.sample_type,
            chunks,
            sample_count: self.sample_count,
            duration_ns: self.duration_ns,
        }
    }
}

/// The channels of all files, one file after the other.
pub open spec fn channels_of(files: Seq<SourceFile>) -> Seq<SourceChannel>
    decreases files.len(),
{
    if files.len() == 0 {
        Seq::empty()
    } else {
        channels_of(files.drop_last()) + files.last().channels@
    }
}

/// The names of channels.
pub open spec fn names_of(channels: Seq<SourceChannel>) -> Seq<Seq<char>> {
    Seq::new(channels.len(), |i: int| channels[i].name@)
}

/// The names of the channels of all files.
pub fn channel_names(files: &Vec<SourceFile>) -> (names: Vec<String>)
    ensures
        crate::text::texts(names@) == names_of(channels_of(files@)),
{
    let mut names: Vec<String> = Vec::new();
    let mut f: usize = 0;
    assert(crate::text::texts(names@) =~= names_of(channels_of(files@.take(0))));
    while f < files.len()
        invariant
            f <= files@.len(),
            crate::text::texts(names@) == names_of(channels_of(files@.take(f as int))),
        decreases files@.len() - f,
    {
        let channels = &files[f].channels;
        let ghost before = crate::text::texts(names@);
        let mut c: usize = 0;
        assert(before + names_of(channels@.take(0)) =~= before);
        while c < channels.len()
            invariant
                c <= channels@.len(),
                crate::text::texts(names@) == before + names_of(channels@.take(c as int)),
            decreases channels@.len() - c,
        {
            let ghost earlier = names@;
            names.push(channels[c].name.clone());
            assert(crate::text::texts(names@) =~= crate::text::texts(earlier).push(
                channels@[c as int].name@,
            ));
            assert(names_of(channels@.take(c + 1)) =~= names_of(channels@.take(c as int)).push(
                channels@[c as int].name@,
            ));
            assert(crate::text::texts(names@) =~= before + names_of(channels@.take(c + 1)));
            c = c + 1;
        }
        proof {
            assert(channels@.take(c as int) =~= channels@);
            assert(files@.take(f + 1).drop_last() =~= files@.take(f as int));
            assert(names_of(channels_of(files@.take(f + 1))) =~= before + names_of(channels@));
        }
        f = f + 1;
    }
    assert(files@.take(f as int) =~= files@);
    names
}

} // verus!
