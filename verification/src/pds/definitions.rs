//! The channel definitions of a PDS file.
use crate::pds::bytes::{text_at, u32_at, u32_or, u32le, u32le_or, u64_at, u64le, utf16le};
use crate::pds::directory::Layout;
use crate::sample::{type_of_code, SampleType};
use crate::text::{contains, contains_text, lower, to_lower};
use vstd::prelude::*;

verus! {

/// The number that opens a marked definition record.
pub const MARKER: u64 = 0x7c72;

/// A channel definition.
#[derive(Debug, Clone)]
pub struct ChannelDef {
    pub id: u32,
    pub name: String,
    pub unit: String,
    pub sample_type: SampleType,
}

/// What a channel definition says.
#[verifier::ext_equal]
pub struct Definition {
    pub id: u32,
    pub name: Seq<char>,
    pub unit: Seq<char>,
    pub sample_type: SampleType,
}

impl View for ChannelDef {
    type V = Definition;

    open spec fn view(&self) -> Definition {
        Definition {
            id: self.id,
            name: self.name@,
            unit: self.unit@,
            sample_type: self.sample_type,
        }
    }
}

/// What a list of channel definitions says.
pub open spec fn definitions(defs: Seq<ChannelDef>) -> Seq<Definition> {
    Seq::new(defs.len(), |i: int| defs[i]@)
}

/// The smallest of three numbers.
pub open spec fn least(a: int, b: int, c: int) -> int {
    if a <= b && a <= c {
        a
    } else if b <= c {
        b
    } else {
        c
    }
}

/// The unit that a channel's name suggests; empty where it suggests none.
pub open spec fn inferred_unit(name: Seq<char>) -> Seq<char> {
    let n = lower(name);
    if contains(n, "speed"@) || contains(n, "vel"@) {
        "m/s"@
    } else if contains(n, "steer"@) {
        "deg"@
    } else if contains(n, "accel"@) {
        "g"@
    } else if contains(n, "damper"@) {
        "mm"@
    } else if (contains(n, "brake"@) && contains(n, "press"@)) || contains(n, "p_f_brake"@)
        || contains(n, "p_r_brake"@) || contains(n, "p_tyre"@) || (contains(n, "tire"@)
        && contains(n, "press"@)) || (contains(n, "tyre"@) && contains(n, "press"@)) {
        "pa"@
    } else {
        Seq::empty()
    }
}

/// The stored unit, or the one that the name suggests where none is stored.
pub open spec fn unit_or_inferred(stored: Seq<char>, name: Seq<char>) -> Seq<char> {
    if stored.len() == 0 {
        inferred_unit(name)
    } else {
        stored
    }
}

/// The first of the positions `from`, `from + 2`, ... below `to` that holds the marker.
pub open spec fn first_marker(data: Seq<u8>, from: int, to: int) -> Option<int>
    decreases to - from + 1,
{
    if from >= to {
        None
    } else if u64_at(data, from) == Some(MARKER) {
        Some(from)
    } else {
        first_marker(data, from + 2, to)
    }
}

/// The position of the first marked record: it stands within the first 8192 bytes of the
/// definitions.
pub open spec fn first_marked_record(data: Seq<u8>, layout: Layout) -> Option<int> {
    first_marker(
        data,
        layout.defs_offset as int,
        least(layout.chunk_offset as int, layout.defs_offset + 8192, data.len() as int) - 7,
    )
}

/// The size of a marked record: the distance to the second marker, which stands within 1024
/// bytes of the first, or 304.
pub open spec fn marked_record_size(data: Seq<u8>, layout: Layout, first: int) -> int {
    match first_marker(
        data,
        first + 16,
        least(layout.chunk_offset as int, first + 1024, data.len() as int) - 7,
    ) {
        Some(second) => second - first,
        None => 304,
    }
}

/// The definition that the record at a position holds, if it is a marked record with an
/// identifier and a name.
pub open spec fn marked_definition(data: Seq<u8>, at: int) -> Option<Definition> {
    let id = u32_or(data, at + 8, 0);
    let name = text_at(data, at + 0x10, 112);
    if u64_at(data, at) == Some(MARKER) && id != 0 && name.len() > 0 {
        Some(
            Definition {
                id,
                name,
                unit: unit_or_inferred(text_at(data, at + 0x98, 32), name),
                sample_type: type_of_code(u32_or(data, at + 0xd8, 6) as int),
            },
        )
    } else {
        None
    }
}

/// The definitions in the records `at`, `at + size`, ... that end by `limit`.
pub open spec fn marked_from(data: Seq<u8>, at: int, size: int, limit: int) -> Seq<Definition>
    decreases
            if at < limit {
                limit - at
            } else {
                0
            },
{
    if size <= 0 || at + 0xdc > limit {
        Seq::empty()
    } else {
        let rest = marked_from(data, at + size, size, limit);
        match marked_definition(data, at) {
            Some(definition) => seq![definition] + rest,
            None => rest,
        }
    }
}

/// The definitions in marked records.
pub open spec fn marked_definitions(data: Seq<u8>, layout: Layout) -> Seq<Definition> {
    match first_marked_record(data, layout) {
        None => Seq::empty(),
        Some(first) => {
            let size = marked_record_size(data, layout, first);
            if size < 0xdc {
                Seq::empty()
            } else {
                marked_from(
                    data,
                    first,
                    size,
                    least(layout.chunk_offset as int, data.len() as int, data.len() as int),
                )
            }
        },
    }
}

/// The type code of an unmarked record.
pub open spec fn unmarked_code(data: Seq<u8>, at: int, size: int, is_export: bool) -> int {
    if !is_export && size >= 0xd4 {
        match u32_at(data, at + 0xd0) {
            Some(code) => if 1 <= code <= 7 {
                code as int
            } else {
                7
            },
            None => 7,
        }
    } else {
        7
    }
}

/// The definition that the unmarked record at a position holds, if it has a name.
pub open spec fn unmarked_definition(
    data: Seq<u8>,
    at: int,
    size: int,
    is_export: bool,
) -> Option<Definition> {
    let name = text_at(data, at + 8, 112);
    let stored = if size >= 0xb8 {
        text_at(data, at + 0x98, 32)
    } else {
        Seq::empty()
    };
    if name.len() > 0 {
        Some(
            Definition {
                id: u32_or(data, at, 0),
                name,
                unit: unit_or_inferred(stored, name),
                sample_type: type_of_code(unmarked_code(data, at, size, is_export)),
            },
        )
    } else {
        None
    }
}

/// The definitions in the `left` unmarked records from `at` on, up to the first that does not
/// start 16 bytes before the end of the file.
pub open spec fn unmarked_from(
    data: Seq<u8>,
    at: int,
    size: int,
    left: nat,
    is_export: bool,
) -> Seq<Definition>
    decreases left,
{
    if left == 0 || at + 16 > data.len() {
        Seq::empty()
    } else {
        let rest = unmarked_from(data, at + size, size, (left - 1) as nat, is_export);
        match unmarked_definition(data, at, size, is_export) {
            Some(definition) => seq![definition] + rest,
            None => rest,
        }
    }
}

/// The definitions in unmarked records.
pub open spec fn unmarked_definitions(data: Seq<u8>, layout: Layout, is_export: bool) -> Seq<
    Definition,
> {
    let size = (layout.chunk_offset - layout.defs_offset) / layout.defs_count as int;
    if layout.defs_count == 0 || layout.chunk_offset < layout.defs_offset || !(100 <= size
        <= 1024) {
        Seq::empty()
    } else {
        unmarked_from(data, layout.defs_offset as int, size, layout.defs_count as nat, is_export)
    }
}

/// The unit that a channel's name suggests.
pub fn infer_unit(name: &str) -> (unit: String)
    ensures
        unit@ == inferred_unit(name@),
{
    let lowered = to_lower(name);
    let n: &str = lowered.as_str();
    if contains_text(n, "speed") || contains_text(n, "vel") {
        "m/s".to_owned()
    } else if contains_text(n, "steer") {
        "deg".to_owned()
    } else if contains_text(n, "accel") {
        "g".to_owned()
    } else if contains_text(n, "damper") {
        "mm".to_owned()
    } else if (contains_text(n, "brake") && contains_text(n, "press")) || contains_text(
        n,
        "p_f_brake",
    ) || contains_text(n, "p_r_brake") || contains_text(n, "p_tyre") || (contains_text(n, "tire")
        && contains_text(n, "press")) || (contains_text(n, "tyre") && contains_text(n, "press")) {
        "pa".to_owned()
    } else {
        String::new()
    }
}

/// The stored unit, or the one that the name suggests where none is stored.
fn unit_of(stored: String, name: &str) -> (unit: String)
    ensures
        unit@ == unit_or_inferred(stored@, name@),
{
    if stored.as_str().is_empty() {
        infer_unit(name)
    } else {
        stored
    }
}

/// The smallest of three numbers.
fn least_of(a: usize, b: usize, c: usize) -> (m: usize)
    ensures
        m == least(a as int, b as int, c as int),
{
    if a <= b && a <= c {
        a
    } else if b <= c {
        b
    } else {
        c
    }
}

/// The first of the positions `from`, `from + 2`, ... that holds the marker and is more than
/// seven bytes below `end`.
fn find_marker(data: &[u8], from: usize, end: usize) -> (at: Option<usize>)
    requires
        end <= data@.len(),
    ensures
        match at {
            Some(at) => first_marker(data@, from as int, end - 7) == Some(at as int) && from <= at
                && at + 7 < end,
            None => first_marker(data@, from as int, end - 7) is None,
        },
{
    let mut at: usize = from;
    while at < end && end - at > 7
        invariant
            end <= data@.len(),
            from <= at,
            first_marker(data@, from as int, end - 7) == first_marker(data@, at as int, end - 7),
        decreases end - at,
    {
        if let Some(value) = u64le(data, at) {
            if value == MARKER {
                return Some(at);
            }
        }
        at = at + 2;
    }
    None
}

/// Reads the definitions in marked records.
pub fn marker_defs(data: &[u8], layout: Layout) -> (defs: Vec<ChannelDef>)
    ensures
        definitions(defs@) == marked_definitions(data@, layout),
{
    let scan_end: usize = least_of(
        layout.chunk_offset,
        layout.defs_offset.saturating_add(8192),
        data.len(),
    );
    let mut defs: Vec<ChannelDef> = Vec::new();
    let first: usize = match find_marker(data, layout.defs_offset, scan_end) {
        Some(first) => first,
        None => {
            assert(definitions(defs@) =~= Seq::empty());
            return defs;
        },
    };
    let probe_end: usize = least_of(layout.chunk_offset, first.saturating_add(1024), data.len());
    let record_size: usize = match find_marker(data, first.saturating_add(16), probe_end) {
        Some(second) => second - first,
        None => 304,
    };
    if record_size < 0xdc {
        assert(definitions(defs@) =~= Seq::empty());
        return defs;
    }
    let limit: usize = least_of(layout.chunk_offset, data.len(), data.len());
    let ghost all = marked_from(data@, first as int, record_size as int, limit as int);
    let mut pos: usize = first;
    assert(definitions(defs@) + all =~= all);
    while pos <= limit && limit - pos >= 0xdc
        invariant_except_break
            definitions(defs@) + marked_from(data@, pos as int, record_size as int, limit as int)
                == all,
        invariant
            record_size >= 0xdc,
            limit <= data@.len(),
        ensures
            definitions(defs@) == all,
        decreases limit - pos,
    {
        let ghost before = definitions(defs@);
        let ghost rest = marked_from(
            data@,
            pos + record_size,
            record_size as int,
            limit as int,
        );
        let marked: bool = match u64le(data, pos) {
            Some(value) => value == MARKER,
            None => false,
        };
        if marked {
            let id: u32 = u32le_or(data, pos + 8, 0);
            let name = utf16le(data, pos + 0x10, 112);
            if id != 0 && !name.as_str().is_empty() {
                let unit = unit_of(utf16le(data, pos + 0x98, 32), name.as_str());
                let sample_type = SampleType::from_code(u32le_or(data, pos + 0xd8, 6));
                defs.push(ChannelDef { id, name, unit, sample_type });
                assert(definitions(defs@) =~= before.push(defs@.last()@));
                assert(defs@.last()@ =~= marked_definition(data@, pos as int)->0);
                assert(before + (seq![defs@.last()@] + rest) =~= definitions(defs@) + rest);
            }
        }
        assert(definitions(defs@) + rest == all);
        if record_size > limit - pos {
            assert(rest =~= Seq::empty());
            assert(definitions(defs@) + rest =~= definitions(defs@));
            break;
        }
        pos = pos + record_size;
    }
    defs
}

/// Reads the definitions in unmarked records.
pub fn markerless_defs(data: &[u8], layout: Layout, is_export: bool) -> (defs: Vec<ChannelDef>)
    ensures
        definitions(defs@) == unmarked_definitions(data@, layout, is_export),
{
    let mut defs: Vec<ChannelDef> = Vec::new();
    assert(definitions(defs@) =~= Seq::empty());
    if layout.defs_count == 0 || layout.chunk_offset < layout.defs_offset {
        return defs;
    }
    let span: usize = layout.chunk_offset - layout.defs_offset;
    let record_size: usize = span / layout.defs_count;
    if record_size < 100 || record_size > 1024 {
        return defs;
    }
    let ghost all = unmarked_from(
        data@,
        layout.defs_offset as int,
        record_size as int,
        layout.defs_count as nat,
        is_export,
    );
    assert(record_size * layout.defs_count <= span) by (nonlinear_arith)
        requires
            record_size == span / layout.defs_count,
            layout.defs_count > 0,
    ;
    let mut pos: usize = layout.defs_offset;
    let mut i: usize = 0;
    assert(definitions(defs@) + all =~= all);
    while i < layout.defs_count
        invariant_except_break
            definitions(defs@) + unmarked_from(
                data@,
                pos as int,
                record_size as int,
                (layout.defs_count - i) as nat,
                is_export,
            ) == all,
        invariant
            100 <= record_size <= 1024,
            i <= layout.defs_count,
            pos == layout.defs_offset + i * record_size,
            record_size * layout.defs_count <= span,
            span == layout.chunk_offset - layout.defs_offset,
        ensures
            definitions(defs@) == all,
        decreases layout.defs_count - i,
    {
        let ghost before = definitions(defs@);
        let ghost rest = unmarked_from(
            data@,
            pos + record_size,
            record_size as int,
            (layout.defs_count - i - 1) as nat,
            is_export,
        );
        if data.len() < 16 || pos > data.len() - 16 {
            assert(before + Seq::<Definition>::empty() =~= before);
            break;
        }
        let id: u32 = u32le_or(data, pos, 0);
        let name = utf16le(data, pos + 8, 112);
        if !name.as_str().is_empty() {
            let stored = if record_size >= 0xb8 {
                utf16le(data, pos.saturating_add(0x98), 32)
            } else {
                String::new()
            };
            let unit = unit_of(stored, name.as_str());
            let code: u32 = if !is_export && record_size >= 0xd4 {
                match u32le(data, pos.saturating_add(0xd0)) {
                    Some(code) => if 1 <= code && code <= 7 {
                        code
                    } else {
                        7
                    },
                    None => 7,
                }
            } else {
                7
            };
            let sample_type = SampleType::from_code(code);
            defs.push(ChannelDef { id, name, unit, sample_type });
            assert(definitions(defs@) =~= before.push(defs@.last()@));
            assert(defs@.last()@ =~= unmarked_definition(
                data@,
                pos as int,
                record_size as int,
                is_export,
            )->0);
            assert(before + (seq![defs@.last()@] + rest) =~= definitions(defs@) + rest);
        }
        assert((i + 1) * record_size <= record_size * layout.defs_count) by (nonlinear_arith)
            requires
                i < layout.defs_count,
        ;
        assert((i + 1) * record_size == i * record_size + record_size) by (nonlinear_arith);
        pos = pos + record_size;
        i = i + 1;
    }
    defs
}

} // verus!
