//! What stands in one place of a result table.
use crate::number::Affine;
use crate::pds::file::{Reading, SampleValue};
use vstd::prelude::*;

verus! {

/// The value of a cell, or how to get it from the file that it belongs to.
#[derive(Debug, PartialEq, Eq)]
pub enum Cell {
    Null,
    Text(String),
    Unsigned32(u32),
    Unsigned(u64),
    Signed(i64),
    Flag(bool),
    /// The bit pattern of a number.
    Number(u64),
    /// One number divided by another.
    Ratio { numerator: u64, denominator: u64 },
    /// A stored number.
    Stored(SampleValue),
    /// A value between two stored numbers.
    Between(Reading),
    /// A sample of the file, then converted.
    Sample { channel: usize, chunk: usize, index: u64, conversion: Option<Affine> },
    /// The time of a sample of the file.
    SampleTime { channel: usize, chunk: usize, index: u64 },
    /// A channel's value at a moment, then converted; nothing where the file has none.
    Reading { channel: usize, time_ns: u64, linear: bool, conversion: Option<Affine> },
    /// A channel's value at a moment, without blending and rounded to a whole number; nothing
    /// where the file has no finite one.
    WholeReading { channel: usize, time_ns: u64 },
    /// The video file at a moment.
    VideoFile { time_ns: u64 },
    /// The video frame at a moment.
    VideoFrame { time_ns: u64 },
    /// The video time at a moment.
    VideoSync { time_ns: u64 },
}

/// What a cell says.
pub enum CellModel {
    Null,
    Text(Seq<char>),
    Unsigned32(u32),
    Unsigned(u64),
    Signed(i64),
    Flag(bool),
    Number(u64),
    Ratio { numerator: u64, denominator: u64 },
    Stored(SampleValue),
    Between(Reading),
    Sample { channel: usize, chunk: usize, index: u64, conversion: Option<Affine> },
    SampleTime { channel: usize, chunk: usize, index: u64 },
    Reading { channel: usize, time_ns: u64, linear: bool, conversion: Option<Affine> },
    WholeReading { channel: usize, time_ns: u64 },
    VideoFile { time_ns: u64 },
    VideoFrame { time_ns: u64 },
    VideoSync { time_ns: u64 },
}

impl View for Cell {
    type V = CellModel;

    open spec fn view(&self) -> CellModel {
        match *self {
            Cell::Null => CellModel::Null,
            Cell::Text(text) => CellModel::Text(text@),
            Cell::Unsigned32(n) => CellModel::Unsigned32(n),
            Cell::Unsigned(n) => CellModel::Unsigned(n),
            Cell::Signed(n) => CellModel::Signed(n),
            Cell::Flag(on) => CellModel::Flag(on),
            Cell::Number(bits) => CellModel::Number(bits),
            Cell::Ratio { numerator, denominator } => CellModel::Ratio { numerator, denominator },
            Cell::Stored(value) => CellModel::Stored(value),
            Cell::Between(reading) => CellModel::Between(reading),
            Cell::Sample { channel, chunk, index, conversion } => CellModel::Sample {
                channel,
                chunk,
                index,
                conversion,
            },
            Cell::SampleTime { channel, chunk, index } => CellModel::SampleTime {
                channel,
                chunk,
                index,
            },
            Cell::Reading { channel, time_ns, linear, conversion } => CellModel::Reading {
                channel,
                time_ns,
                linear,
                conversion,
            },
            Cell::WholeReading { channel, time_ns } => CellModel::WholeReading {
                channel,
                time_ns,
            },
            Cell::VideoFile { time_ns } => CellModel::VideoFile { time_ns },
            Cell::VideoFrame { time_ns } => CellModel::VideoFrame { time_ns },
            Cell::VideoSync { time_ns } => CellModel::VideoSync { time_ns },
        }
    }
}

/// A text, or nothing.
pub open spec fn text_or_null(text: Option<Seq<char>>) -> CellModel {
    match text {
        Some(text) => CellModel::Text(text),
        None => CellModel::Null,
    }
}

/// A number, or nothing.
pub open spec fn unsigned_or_null(n: Option<u64>) -> CellModel {
    match n {
        Some(n) => CellModel::Unsigned(n),
        None => CellModel::Null,
    }
}

/// A cell with a text.
pub fn text_cell(text: &str) -> (cell: Cell)
    ensures
        cell@ == CellModel::Text(text@),
{
    Cell::Text(text.to_owned())
}

/// A cell with a text, or an empty one.
pub fn optional_text_cell(text: &Option<String>) -> (cell: Cell)
    ensures
        cell@ == text_or_null(crate::text::optional_text(*text)),
{
    match text {
        Some(text) => Cell::Text(text.clone()),
        None => Cell::Null,
    }
}

/// A cell with a number, or an empty one.
pub fn optional_unsigned_cell(n: Option<u64>) -> (cell: Cell)
    ensures
        cell@ == unsigned_or_null(n),
{
    match n {
        Some(n) => Cell::Unsigned(n),
        None => Cell::Null,
    }
}

} // verus!
