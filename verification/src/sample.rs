//! The representations in which samples are stored.
use vstd::prelude::*;

verus! {

/// How one sample is stored.
#[derive(Debug, Clone, Copy, PartialEq, Eq, Structural)]
pub enum SampleType {
    U8,
    I16,
    U16,
    I32,
    U32,
    F32,
    F64,
}

/// The representation that a type code stands for; codes that stand for none mean `F32`.
pub open spec fn type_of_code(code: int) -> SampleType {
    if code == 1 {
        SampleType::U8
    } else if code == 2 {
        SampleType::I16
    } else if code == 3 {
        SampleType::U16
    } else if code == 4 {
        SampleType::I32
    } else if code == 5 {
        SampleType::U32
    } else if code == 7 {
        SampleType::F64
    } else {
        SampleType::F32
    }
}

impl SampleType {
    /// The type code of this representation.
    pub open spec fn type_code(self) -> u32 {
        match self {
            SampleType::U8 => 1,
            SampleType::I16 => 2,
            SampleType::U16 => 3,
            SampleType::I32 => 4,
            SampleType::U32 => 5,
            SampleType::F32 => 6,
            SampleType::F64 => 7,
        }
    }

    /// The number of bytes of one sample.
    pub open spec fn width(self) -> nat {
        match self {
            SampleType::U8 => 1,
            SampleType::I16 | SampleType::U16 => 2,
            SampleType::I32 | SampleType::U32 | SampleType::F32 => 4,
            SampleType::F64 => 8,
        }
    }

    /// The name under which this representation is reported.
    pub open spec fn reported_name(self) -> Seq<char> {
        match self {
            SampleType::U8 => "uint8"@,
            SampleType::I16 => "int16"@,
            SampleType::U16 => "uint16"@,
            SampleType::I32 => "int32"@,
            SampleType::U32 => "uint32"@,
            SampleType::F32 => "float32"@,
            SampleType::F64 => "float64"@,
        }
    }

    /// Whether samples are stored as floating-point numbers.
    pub open spec fn floating(self) -> bool {
        self is F32 || self is F64
    }

    /// The representation that a type code stands for.
    pub fn from_code(code: u32) -> (sample_type: Self)
        ensures
            sample_type == type_of_code(code as int),
    {
        match code {
            1 => SampleType::U8,
            2 => SampleType::I16,
            3 => SampleType::U16,
            4 => SampleType::I32,
            5 => SampleType::U32,
            7 => SampleType::F64,
            _ => SampleType::F32,
        }
    }

    /// The type code of this representation.
    pub fn code(self) -> (code: u32)
        ensures
            code == self.type_code(),
    {
        match self {
            SampleType::U8 => 1,
            SampleType::I16 => 2,
            SampleType::U16 => 3,
            SampleType::I32 => 4,
            SampleType::U32 => 5,
            SampleType::F32 => 6,
            SampleType::F64 => 7,
        }
    }

    /// The number of bytes of one sample.
    pub fn byte_width(self) -> (width: usize)
        ensures
            width == self.width(),
    {
        match self {
            SampleType::U8 => 1,
            SampleType::I16 | SampleType::U16 => 2,
            SampleType::I32 | SampleType::U32 | SampleType::F32 => 4,
            SampleType::F64 => 8,
        }
    }

    /// The name under which this representation is reported.
    pub fn name(self) -> (name: &'static str)
        ensures
            name@ == self.reported_name(),
    {
        match self {
            SampleType::U8 => "uint8",
            SampleType::I16 => "int16",
            SampleType::U16 => "uint16",
            SampleType::I32 => "int32",
            SampleType::U32 => "uint32",
            SampleType::F32 => "float32",
            SampleType::F64 => "float64",
        }
    }

    /// Whether samples are stored as floating-point numbers.
    pub fn is_float(self) -> (float: bool)
        ensures
            float == self.floating(),
    {
        matches!(self, SampleType::F32 | SampleType::F64)
    }
}

/// Every representation is the one that its own code stands for, and a code that belongs to
/// no representation is read as `F32`.
pub proof fn law_codes_round_trip(sample_type: SampleType, code: u32)
    ensures
        type_of_code(sample_type.type_code() as int) == sample_type,
        1 <= code <= 7 ==> type_of_code(code as int).type_code() == code,
        !(1 <= code <= 7) ==> type_of_code(code as int) is F32,
{
}

} // verus!
