//! Little-endian numbers and UTF-16 text at a position of the file's bytes.
use crate::text::{string_of, trim, trim_range};
use vstd::prelude::*;

verus! {

/// The 16-bit number at a position, where the bytes reach that far.
pub open spec fn u16_at(data: Seq<u8>, at: int) -> Option<u16> {
    if 0 <= at && at + 2 <= data.len() {
        Some((data[at] + 0x100 * data[at + 1]) as u16)
    } else {
        None
    }
}

/// The 32-bit number at a position, where the bytes reach that far.
pub open spec fn u32_at(data: Seq<u8>, at: int) -> Option<u32> {
    if 0 <= at && at + 4 <= data.len() {
        Some(
            (data[at] + 0x100 * data[at + 1] + 0x1_0000 * data[at + 2] + 0x100_0000 * data[at
                + 3]) as u32,
        )
    } else {
        None
    }
}

/// The 64-bit number at a position, where the bytes reach that far.
pub open spec fn u64_at(data: Seq<u8>, at: int) -> Option<u64> {
    match (u32_at(data, at), u32_at(data, at + 4)) {
        (Some(low), Some(high)) => Some((low + 0x1_0000_0000 * high) as u64),
        _ => None,
    }
}

/// The 32-bit number at a position, or a default past the end of the bytes.
pub open spec fn u32_or(data: Seq<u8>, at: int, default: u32) -> u32 {
    match u32_at(data, at) {
        Some(value) => value,
        None => default,
    }
}

/// Reads the 16-bit number at a position.
pub fn u16le(data: &[u8], offset: usize) -> (value: Option<u16>)
    ensures
        value == u16_at(data@, offset as int),
{
    if data.len() < 2 || offset > data.len() - 2 {
        return None;
    }
    Some(data[offset] as u16 + 0x100 * (data[offset + 1] as u16))
}

/// Reads the 32-bit number at a position.
pub fn u32le(data: &[u8], offset: usize) -> (value: Option<u32>)
    ensures
        value == u32_at(data@, offset as int),
{
    if data.len() < 4 || offset > data.len() - 4 {
        return None;
    }
    Some(
        data[offset] as u32 + 0x100 * (data[offset + 1] as u32) + 0x1_0000 * (data[offset
            + 2] as u32) + 0x100_0000 * (data[offset + 3] as u32),
    )
}

/// Reads the 64-bit number at a position.
pub fn u64le(data: &[u8], offset: usize) -> (value: Option<u64>)
    ensures
        value == u64_at(data@, offset as int),
{
    if data.len() < 8 || offset > data.len() - 8 {
        return None;
    }
    match (u32le(data, offset), u32le(data, offset + 4)) {
        (Some(low), Some(high)) => Some(low as u64 + 0x1_0000_0000 * (high as u64)),
        _ => None,
    }
}

/// Reads the 32-bit number at a position, with a default past the end of the bytes.
pub fn u32le_or(data: &[u8], offset: usize, default: u32) -> (value: u32)
    ensures
        value == u32_or(data@, offset as int, default),
{
    match u32le(data, offset) {
        Some(value) => value,
        None => default,
    }
}

/// The UTF-16 code units from `at` up to a zero unit or to `end`.
pub open spec fn utf16_units(data: Seq<u8>, at: int, end: int) -> Seq<u16>
    decreases end - at,
{
    if at + 1 >= end {
        Seq::empty()
    } else {
        match u16_at(data, at) {
            Some(unit) => if unit == 0 {
                Seq::empty()
            } else {
                seq![unit] + utf16_units(data, at + 2, end)
            },
            None => Seq::empty(),
        }
    }
}

/// Whether a code unit opens a surrogate pair.
pub open spec fn high_surrogate(unit: u16) -> bool {
    0xd800 <= unit <= 0xdbff
}

/// Whether a code unit closes a surrogate pair.
pub open spec fn low_surrogate(unit: u16) -> bool {
    0xdc00 <= unit <= 0xdfff
}

/// The text that UTF-16 code units spell; a surrogate without its partner reads as U+FFFD.
pub open spec fn utf16_text(units: Seq<u16>) -> Seq<char>
    decreases units.len(),
{
    if units.len() == 0 {
        Seq::empty()
    } else if high_surrogate(units[0]) && units.len() > 1 && low_surrogate(units[1]) {
        seq![(0x1_0000 + 0x400 * (units[0] - 0xd800) + (units[1] - 0xdc00)) as char] + utf16_text(
            units.skip(2),
        )
    } else if high_surrogate(units[0]) || low_surrogate(units[0]) {
        seq!['\u{fffd}'] + utf16_text(units.skip(1))
    } else {
        seq![units[0] as char] + utf16_text(units.skip(1))
    }
}

/// The text stored at a position in a field of the given size.
pub open spec fn text_at(data: Seq<u8>, at: int, size: int) -> Seq<char> {
    let end = if at + size <= data.len() {
        at + size
    } else {
        data.len() as int
    };
    trim(utf16_text(utf16_units(data, at, end)))
}

/// The characters that UTF-16 code units spell.
fn utf16_chars(units: &Vec<u16>) -> (chars: Vec<char>)
    ensures
        chars@ == utf16_text(units@),
{
    let mut chars: Vec<char> = Vec::new();
    let mut i: usize = 0;
    assert(units@.skip(0) =~= units@);
    while i < units.len()
        invariant
            i <= units@.len(),
            chars@ + utf16_text(units@.skip(i as int)) == utf16_text(units@),
        decreases units@.len() - i,
    {
        let ghost rest = units@.skip(i as int);
        let ghost before = chars@;
        let unit: u16 = units[i];
        let high: bool = 0xd800 <= unit && unit <= 0xdbff;
        let low: bool = 0xdc00 <= unit && unit <= 0xdfff;
        assert(rest.skip(1) =~= units@.skip(i + 1));
        if high && units.len() - i > 1 && 0xdc00 <= units[i + 1] && units[i + 1] <= 0xdfff {
            assert(rest.skip(2) =~= units@.skip(i + 2));
            let code: u32 = 0x1_0000 + 0x400 * (unit as u32 - 0xd800) + (units[i + 1] as u32
                - 0xdc00);
            if let Some(c) = char::from_u32(code) {
                chars.push(c);
            }
            i = i + 2;
        } else {
            if high || low {
                chars.push('\u{fffd}');
            } else if let Some(c) = char::from_u32(unit as u32) {
                chars.push(c);
            }
            i = i + 1;
        }
        assert(chars@ =~= before.push(chars@.last()));
        assert(chars@ + utf16_text(units@.skip(i as int)) =~= before + (seq![chars@.last()]
            + utf16_text(units@.skip(i as int))));
    }
    assert(units@.skip(i as int) =~= Seq::empty());
    assert(chars@ + Seq::<char>::empty() =~= chars@);
    chars
}

/// Reads the text stored at a position in a field of `max_bytes` bytes.
pub fn utf16le(data: &[u8], offset: usize, max_bytes: usize) -> (text: String)
    ensures
        text@ == text_at(data@, offset as int, max_bytes as int),
{
    let wanted: usize = offset.saturating_add(max_bytes);
    let end: usize = if wanted <= data.len() {
        wanted
    } else {
        data.len()
    };
    let mut units: Vec<u16> = Vec::new();
    let mut pos: usize = offset;
    while pos < end && end - pos > 1
        invariant
            end <= data@.len(),
            units@ + utf16_units(data@, pos as int, end as int) == utf16_units(
                data@,
                offset as int,
                end as int,
            ),
        ensures
            units@ == utf16_units(data@, offset as int, end as int),
        decreases end - pos,
    {
        let code: u16 = match u16le(data, pos) {
            Some(code) => code,
            None => 0,
        };
        if code == 0 {
            assert(units@ + Seq::<u16>::empty() =~= units@);
            break;
        }
        let ghost before = units@;
        units.push(code);
        assert(before + (seq![code] + utf16_units(data@, pos + 2, end as int)) =~= units@
            + utf16_units(data@, pos + 2, end as int));
        pos = pos + 2;
    }
    let chars = utf16_chars(&units);
    let bounds = trim_range(&chars, 0, chars.len());
    assert(chars@.subrange(0, chars@.len() as int) =~= chars@);
    string_of(&chars, bounds.0, bounds.1)
}

} // verus!
