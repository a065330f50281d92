//! What holds of numbers and text in bytes.
use crate::laws::text::is_trimmed;
use crate::pds::bytes::{
    high_surrogate, low_surrogate, text_at, u16_at, u32_at, u64_at, utf16_text, utf16_units,
};
use crate::pds::file::{value_at, SampleValue};
use crate::sample::SampleType;
use crate::text::trim;
use vstd::prelude::*;

verus! {

// ---------------------------------------------------------------------------------------
// Numbers
// ---------------------------------------------------------------------------------------
/// A number in as many bytes as are asked for, the least significant first.
pub open spec fn bytes_of(n: nat, count: nat) -> Seq<u8>
    decreases count,
{
    if count == 0 {
        Seq::empty()
    } else {
        seq![(n % 0x100) as u8] + bytes_of(n / 0x100, (count - 1) as nat)
    }
}

/// Whether bytes stand at a position.
pub open spec fn holds(data: Seq<u8>, at: int, bytes: Seq<u8>) -> bool {
    &&& 0 <= at
    &&& at + bytes.len() <= data.len()
    &&& data.subrange(at, at + bytes.len()) == bytes
}

proof fn lemma_holds(data: Seq<u8>, at: int, n: nat, count: nat)
    requires
        0 < count,
        holds(data, at, bytes_of(n, count)),
    ensures
        bytes_of(n, count).len() == count,
        data[at] == n % 0x100,
        holds(data, at + 1, bytes_of(n / 0x100, (count - 1) as nat)),
{
    let bytes = bytes_of(n, count);
    let rest = bytes_of(n / 0x100, (count - 1) as nat);
    lemma_length(n, count);
    lemma_length(n / 0x100, (count - 1) as nat);
    let part = data.subrange(at, at + count);
    assert(part == bytes);
    assert(part[0] == bytes[0]);
    assert forall|i: int| 0 <= i < rest.len() implies data.subrange(at + 1, at + count)[i]
        == rest[i] by {
        assert(part[i + 1] == bytes[i + 1]);
    }
    assert(data.subrange(at + 1, at + count) =~= rest);
}

proof fn lemma_length(n: nat, count: nat)
    ensures
        bytes_of(n, count).len() == count,
    decreases count,
{
    if count > 0 {
        lemma_length(n / 0x100, (count - 1) as nat);
    }
}

/// A number that was stored with its least significant byte first is read back.
pub proof fn law_stored_numbers_are_read_back(data: Seq<u8>, at: int, n: nat)
    ensures
        n < 0x1_0000 && holds(data, at, bytes_of(n, 2)) ==> u16_at(data, at) == Some(n as u16),
        n < 0x1_0000_0000 && holds(data, at, bytes_of(n, 4)) ==> u32_at(data, at) == Some(n as u32),
        n < 0x1_0000_0000_0000_0000 && holds(data, at, bytes_of(n, 8)) ==> u64_at(data, at) == Some(
            n as u64,
        ),
{
    if n < 0x1_0000 && holds(data, at, bytes_of(n, 2)) {
        lemma_holds(data, at, n, 2);
        lemma_holds(data, at + 1, n / 0x100, 1);
    }
    if n < 0x1_0000_0000 && holds(data, at, bytes_of(n, 4)) {
        lemma_four(data, at, n, 0);
    }
    if n < 0x1_0000_0000_0000_0000 && holds(data, at, bytes_of(n, 8)) {
        lemma_four(data, at, n, 4);
        lemma_four(data, at + 4, n / 0x1_0000_0000, 0);
    }
}

proof fn lemma_four(data: Seq<u8>, at: int, n: nat, more: nat)
    requires
        holds(data, at, bytes_of(n, 4 + more)),
    ensures
        u32_at(data, at) == Some((n % 0x1_0000_0000) as u32),
        holds(data, at + 4, bytes_of(n / 0x1_0000_0000, more)),
{
    lemma_holds(data, at, n, 4 + more);
    lemma_holds(data, at + 1, n / 0x100, 3 + more);
    lemma_holds(data, at + 2, n / 0x100 / 0x100, 2 + more);
    lemma_holds(data, at + 3, n / 0x100 / 0x100 / 0x100, 1 + more);
    assert(n / 0x100 / 0x100 / 0x100 / 0x100 == n / 0x1_0000_0000);
}

/// Nothing is read beyond the end, and every position before it can be read.
pub proof fn law_nothing_is_read_beyond_the_end(data: Seq<u8>, at: int)
    requires
        0 <= at,
    ensures
        u16_at(data, at) is Some <==> at + 2 <= data.len(),
        u32_at(data, at) is Some <==> at + 4 <= data.len(),
        u64_at(data, at) is Some <==> at + 8 <= data.len(),
{
}

/// A sample that was stored is read back: an integer with its sign, a floating-point number by
/// its bits.
pub proof fn law_stored_samples_are_read_back(data: Seq<u8>, at: int, v: int, bits: nat)
    ensures
        0 <= v < 0x100 && holds(data, at, bytes_of(v as nat, 1)) ==> value_at(
            data,
            SampleType::U8,
            at,
        ) == SampleValue::Integer(v as i64),
        0 <= v < 0x1_0000 && holds(data, at, bytes_of(v as nat, 2)) ==> value_at(
            data,
            SampleType::U16,
            at,
        ) == SampleValue::Integer(v as i64),
        0 <= v < 0x1_0000_0000 && holds(data, at, bytes_of(v as nat, 4)) ==> value_at(
            data,
            SampleType::U32,
            at,
        ) == SampleValue::Integer(v as i64),
        -0x8000 <= v < 0x8000 && holds(data, at, bytes_of((v % 0x1_0000) as nat, 2)) ==> value_at(
            data,
            SampleType::I16,
            at,
        ) == SampleValue::Integer(v as i64),
        -0x8000_0000 <= v < 0x8000_0000 && holds(
            data,
            at,
            bytes_of((v % 0x1_0000_0000) as nat, 4),
        ) ==> value_at(data, SampleType::I32, at) == SampleValue::Integer(v as i64),
        bits < 0x1_0000_0000 && holds(data, at, bytes_of(bits, 4)) ==> value_at(
            data,
            SampleType::F32,
            at,
        ) == SampleValue::Single(bits as u32),
        bits < 0x1_0000_0000_0000_0000 && holds(data, at, bytes_of(bits, 8)) ==> value_at(
            data,
            SampleType::F64,
            at,
        ) == SampleValue::Double(bits as u64),
{
    law_stored_numbers_are_read_back(data, at, bits);
    if 0 <= v {
        law_stored_numbers_are_read_back(data, at, v as nat);
        if holds(data, at, bytes_of(v as nat, 1)) {
            lemma_holds(data, at, v as nat, 1);
        }
    }
    law_stored_numbers_are_read_back(data, at, (v % 0x1_0000) as nat);
    law_stored_numbers_are_read_back(data, at, (v % 0x1_0000_0000) as nat);
}

// ---------------------------------------------------------------------------------------
// Text
// ---------------------------------------------------------------------------------------
/// A character in UTF-16: one unit, or a pair of surrogates beyond the basic plane.
pub open spec fn units_of(c: char) -> Seq<u16> {
    let n = c as int;
    if n < 0x1_0000 {
        seq![n as u16]
    } else {
        seq![
            (0xd800 + (n - 0x1_0000) / 0x400) as u16,
            (0xdc00 + (n - 0x1_0000) % 0x400) as u16,
        ]
    }
}

/// Text in UTF-16.
pub open spec fn utf16(s: Seq<char>) -> Seq<u16>
    decreases s.len(),
{
    if s.len() == 0 {
        Seq::empty()
    } else {
        units_of(s[0]) + utf16(s.skip(1))
    }
}

proof fn lemma_units_of(c: char)
    ensures
        (c as int) < 0x1_0000 ==> units_of(c)[0] == c as int && units_of(c)[0] as char == c
            && !high_surrogate(units_of(c)[0]) && !low_surrogate(units_of(c)[0]),
        (c as int) >= 0x1_0000 ==> high_surrogate(units_of(c)[0]) && low_surrogate(units_of(c)[1])
            && (0x1_0000 + 0x400 * (units_of(c)[0] - 0xd800) + (units_of(c)[1] - 0xdc00)) as char
            == c,
{
    let n = c as int;
    assert(0 <= n <= 0x10_ffff);
    if n >= 0x1_0000 {
        assert(0x400 * ((n - 0x1_0000) / 0x400) + (n - 0x1_0000) % 0x400 == n - 0x1_0000);
    }
}

/// Text that was turned into UTF-16 is read back.
pub proof fn law_utf16_is_read_back(s: Seq<char>)
    ensures
        utf16_text(utf16(s)) == s,
    decreases s.len(),
{
    if s.len() > 0 {
        law_utf16_is_read_back(s.skip(1));
        let rest = utf16(s.skip(1));
        let units = utf16(s);
        let n = s[0] as int;
        assert(units == units_of(s[0]) + rest);
        lemma_units_of(s[0]);
        assert(units[0] == units_of(s[0])[0]);
        if n < 0x1_0000 {
            assert(units.skip(1) =~= rest);
        } else {
            assert(units.skip(2) =~= rest);
            assert(units[1] == units_of(s[0])[1]);
        }
        assert(seq![s[0]] + s.skip(1) =~= s);
        assert(utf16_text(units) =~= s);
    }
}

/// A surrogate without its other half becomes one replacement character.
pub proof fn law_lone_surrogates_are_replaced(unit: u16, rest: Seq<u16>)
    requires
        0xd800 <= unit <= 0xdfff,
        unit >= 0xdc00 || rest.len() == 0 || !(0xdc00 <= rest[0] <= 0xdfff),
    ensures
        utf16_text(seq![unit] + rest) == seq!['\u{fffd}'] + utf16_text(rest),
{
    let units = seq![unit] + rest;
    assert(units.skip(1) =~= rest);
    if units.len() > 1 {
        assert(units[1] == rest[0]);
    }
}

/// Units in bytes, the less significant byte of each first.
pub open spec fn unit_bytes(units: Seq<u16>) -> Seq<u8>
    decreases units.len(),
{
    if units.len() == 0 {
        Seq::empty()
    } else {
        bytes_of(units[0] as nat, 2) + unit_bytes(units.skip(1))
    }
}

proof fn lemma_units(data: Seq<u8>, at: int, end: int, units: Seq<u16>)
    requires
        holds(data, at, unit_bytes(units)),
        end <= data.len(),
        at + 2 * units.len() <= end,
        forall|i: int| 0 <= i < units.len() ==> #[trigger] units[i] != 0,
        at + 2 * units.len() + 1 >= end || u16_at(data, at + 2 * units.len()) == Some(0u16),
    ensures
        utf16_units(data, at, end) == units,
    decreases units.len(),
{
    if units.len() > 0 {
        let rest = units.skip(1);
        let first = bytes_of(units[0] as nat, 2);
        let all = unit_bytes(units);
        lemma_length(units[0] as nat, 2);
        assert(data.subrange(at, at + all.len()) == all);
        assert(data.subrange(at, at + 2) =~= all.subrange(0, 2));
        assert(all.subrange(0, 2) =~= first);
        assert(data.subrange(at + 2, at + all.len()) =~= all.subrange(2, all.len() as int));
        assert(all.subrange(2, all.len() as int) =~= unit_bytes(rest));
        law_stored_numbers_are_read_back(data, at, units[0] as nat);
        assert forall|i: int| 0 <= i < rest.len() implies #[trigger] rest[i] != 0 by {
            assert(rest[i] == units[i + 1]);
        }
        lemma_units(data, at + 2, end, rest);
        assert(units[0] != 0);
        assert(seq![units[0]] + rest =~= units);
    } else {
        assert(utf16_units(data, at, end) =~= units);
    }
}

/// Text that was stored in a field is read back without the white space around it: up to the
/// first zero, or the whole field where there is none.
pub proof fn law_stored_text_is_read_back(data: Seq<u8>, at: int, size: int, s: Seq<char>)
    requires
        holds(data, at, unit_bytes(utf16(s))),
        2 * utf16(s).len() <= size,
        forall|i: int| 0 <= i < utf16(s).len() ==> #[trigger] utf16(s)[i] != 0,
        2 * utf16(s).len() + 1 >= size || at + 2 * utf16(s).len() + 1 >= data.len() || u16_at(
            data,
            at + 2 * utf16(s).len(),
        ) == Some(0u16),
    ensures
        text_at(data, at, size) == trim(s),
{
    lemma_unit_bytes(utf16(s));
    let end = if at + size <= data.len() {
        at + size
    } else {
        data.len() as int
    };
    lemma_units(data, at, end, utf16(s));
    law_utf16_is_read_back(s);
}

proof fn lemma_unit_bytes(units: Seq<u16>)
    ensures
        unit_bytes(units).len() == 2 * units.len(),
    decreases units.len(),
{
    if units.len() > 0 {
        lemma_length(units[0] as nat, 2);
        lemma_unit_bytes(units.skip(1));
    }
}

/// Text in a field never starts or ends with white space.
pub proof fn law_fields_are_trimmed(data: Seq<u8>, at: int, size: int)
    ensures
        is_trimmed(text_at(data, at, size)),
{
    let end = if at + size <= data.len() {
        at + size
    } else {
        data.len() as int
    };
    crate::laws::text::law_trimmed_text_is_in_the_text(utf16_text(utf16_units(data, at, end)));
}

} // verus!
